use vstd::prelude::*;

use crate::bucket::{Bucket, BUCKET_SIZE};
use crate::hasher::{fold_indices, shifts_fit, table_indices};

verus! {

/// An LSH index: `l` tables of `2^range_pow` buckets each.
pub struct Lsh {
    bucket: Vec<Vec<Bucket>>,
    k: usize,
    l: usize,
    range_pow: usize,
}

/// Number of buckets in each table.
pub open spec fn table_len(range_pow: usize) -> usize {
    1usize << range_pow
}

impl Lsh {
    pub closed spec fn k(&self) -> nat {
        self.k as nat
    }

    pub closed spec fn l(&self) -> nat {
        self.l as nat
    }

    pub closed spec fn range_pow(&self) -> usize {
        self.range_pow
    }

    /// The bucket at index `b` of table `t`.
    pub closed spec fn bucket_at(&self, t: int, b: int) -> Bucket {
        self.bucket@[t]@[b]
    }

    /// Every id put into bucket `b` of table `t` since the last clear.
    pub open spec fn history(&self, t: int, b: int) -> Seq<u32> {
        self.bucket_at(t, b).history()
    }

    /// The ids visible in bucket `b` of table `t`.
    pub open spec fn contents(&self, t: int, b: int) -> Seq<u32> {
        self.bucket_at(t, b).contents()
    }

    pub closed spec fn wf(&self) -> bool {
        &&& self.range_pow < usize::BITS
        &&& shifts_fit(self.k as nat)
        &&& self.bucket@.len() == self.l
        &&& forall|t: int| 0 <= t < self.l ==> (#[trigger] self.bucket@[t])@.len() == table_len(self.range_pow)
        &&& forall|t: int, b: int|
            0 <= t < self.l && 0 <= b < table_len(self.range_pow) ==> (#[trigger] self.bucket@[t]@[b]).wf()
    }

    /// Indices that select one bucket in each table.
    pub open spec fn valid_indices(&self, indices: Seq<usize>) -> bool {
        &&& indices.len() == self.l()
        &&& forall|t: int| 0 <= t < self.l() ==> #[trigger] indices[t] < table_len(self.range_pow())
    }

    /// The concatenated contents of the buckets that `indices` selects in the
    /// first `j` tables.
    pub open spec fn raw_ids(&self, indices: Seq<usize>, j: int) -> Seq<u32>
        decreases j,
    {
        if j <= 0 {
            Seq::empty()
        } else {
            self.raw_ids(indices, j - 1) + self.contents(j - 1, indices[j - 1] as int)
        }
    }

    /// Every bucket of the index is empty.
    pub open spec fn is_empty(&self) -> bool {
        forall|t: int, b: int|
            0 <= t < self.l() && 0 <= b < table_len(self.range_pow()) ==> #[trigger] self.history(t, b)
                == Seq::<u32>::empty()
    }

    /// Every id held in the index is below `bound`.
    pub open spec fn ids_below(&self, bound: nat) -> bool {
        forall|t: int, b: int, q: int|
            0 <= t < self.l() && 0 <= b < table_len(self.range_pow()) && 0 <= q < self.history(t, b).len()
                ==> #[trigger] self.history(t, b)[q] < bound
    }

    /// The ids that `get_raw` returns are ids held in the index.
    pub proof fn lemma_raw_ids_below(&self, indices: Seq<usize>, j: int, bound: nat)
        requires
            self.wf(),
            self.valid_indices(indices),
            self.ids_below(bound),
            j <= self.l(),
        ensures
            forall|p: int| 0 <= p < self.raw_ids(indices, j).len() ==> #[trigger] self.raw_ids(indices, j)[p] < bound,
        decreases j,
    {
        if j > 0 {
            self.lemma_raw_ids_below(indices, j - 1, bound);
            let t = j - 1;
            let b = indices[t] as int;
            self.lemma_bucket_wf(t, b);
            let bucket = self.bucket_at(t, b);
            bucket.lemma_contents();
            bucket.lemma_wf_facts();
            let prev = self.raw_ids(indices, j - 1);
            let c = self.contents(t, b);
            assert forall|p: int| 0 <= p < self.raw_ids(indices, j).len() implies #[trigger] self.raw_ids(
                indices,
                j,
            )[p] < bound by {
                assert(self.raw_ids(indices, j) == prev + c);
                if p >= prev.len() {
                    let q = p - prev.len();
                    let w = crate::bucket::window_index(bucket.count(), q);
                    crate::bucket::lemma_window_index(bucket.count(), q);
                    assert(c[q] == bucket.history()[w]);
                    assert(self.history(t, b)[w] < bound);
                } else {
                    assert(prev[p] < bound);
                }
            }
        }
    }

    pub proof fn lemma_range_pow(&self)
        requires
            self.wf(),
        ensures
            self.range_pow() < usize::BITS,
    {
    }

    pub proof fn lemma_bucket_wf(&self, t: int, b: int)
        requires
            self.wf(),
            0 <= t < self.l(),
            0 <= b < table_len(self.range_pow()),
        ensures
            self.bucket_at(t, b).wf(),
    {
        assert(self.bucket@[t]@[b].wf());
    }

    pub fn new(k: usize, l: usize, range_pow: usize) -> (r: Self)
        requires
            range_pow < usize::BITS,
            shifts_fit(k as nat),
        ensures
            r.wf(),
            r.k() == k,
            r.l() == l,
            r.range_pow() == range_pow,
            r.is_empty(),
    {
        let n: usize = 1usize << range_pow;
        let mut bucket: Vec<Vec<Bucket>> = Vec::with_capacity(l);
        let mut i: usize = 0;
        while i < l
            invariant
                i <= l,
                n == table_len(range_pow),
                bucket@.len() == i,
                forall|t: int| 0 <= t < i ==> (#[trigger] bucket@[t])@.len() == n,
                forall|t: int, b: int|
                    0 <= t < i && 0 <= b < n ==> (#[trigger] bucket@[t]@[b]).wf() && bucket@[t]@[b].history()
                        == Seq::<u32>::empty(),
            decreases l - i,
        {
            let mut row: Vec<Bucket> = Vec::with_capacity(n);
            let mut j: usize = 0;
            while j < n
                invariant
                    j <= n,
                    row@.len() == j,
                    forall|b: int|
                        0 <= b < j ==> (#[trigger] row@[b]).wf() && row@[b].history() == Seq::<u32>::empty(),
                decreases n - j,
            {
                row.push(Bucket::new());
                j = j + 1;
            }
            bucket.push(row);
            i = i + 1;
        }
        Lsh { bucket, k, l, range_pow }
    }

    /// Empties every bucket.
    pub fn clear(&mut self)
        requires
            old(self).wf(),
        ensures
            final(self).wf(),
            final(self).k() == old(self).k(),
            final(self).l() == old(self).l(),
            final(self).range_pow() == old(self).range_pow(),
            final(self).is_empty(),
    {
        let n: usize = 1usize << self.range_pow;
        let mut t: usize = 0;
        while t < self.l
            invariant
                self.wf(),
                t <= self.l,
                n == table_len(self.range_pow),
                self.k == old(self).k,
                self.l == old(self).l,
                self.range_pow == old(self).range_pow,
                forall|t2: int, b: int|
                    0 <= t2 < t && 0 <= b < n ==> #[trigger] self.bucket@[t2]@[b].history() == Seq::<u32>::empty(),
            decreases self.l - t,
        {
            let mut b: usize = 0;
            while b < n
                invariant
                    self.wf(),
                    t < self.l,
                    b <= n,
                    n == table_len(self.range_pow),
                    self.k == old(self).k,
                    self.l == old(self).l,
                    self.range_pow == old(self).range_pow,
                    forall|t2: int, b2: int|
                        0 <= t2 < t && 0 <= b2 < n ==> #[trigger] self.bucket@[t2]@[b2].history() == Seq::<u32>::empty(),
                    forall|b2: int| 0 <= b2 < b ==> #[trigger] self.bucket@[t as int]@[b2].history() == Seq::<u32>::empty(),
                decreases n - b,
            {
                proof {
                    self.lemma_bucket_wf(t as int, b as int);
                }
                self.bucket[t][b].clear();
                b = b + 1;
            }
            t = t + 1;
        }
    }

    /// Folds slot hashes into one bucket index per table.
    pub fn hashes_to_indices(&self, hashes: &[usize]) -> (r: Vec<usize>)
        requires
            self.wf(),
            self.k() * self.l() <= hashes@.len(),
        ensures
            r@ == table_indices(hashes@, self.k(), self.l(), self.range_pow()),
            self.valid_indices(r@),
    {
        fold_indices(hashes, self.k, self.l, self.range_pow)
    }

    /// Puts `id` into the selected bucket of every table; returns the slot
    /// that each bucket used.
    pub fn add(&mut self, indices: &[usize], id: u32) -> (r: Vec<usize>)
        requires
            old(self).wf(),
            old(self).valid_indices(indices@),
            forall|t: int|
                0 <= t < old(self).l() ==> #[trigger] old(self).history(t, indices@[t] as int).len() < usize::MAX,
        ensures
            final(self).wf(),
            final(self).k() == old(self).k(),
            final(self).l() == old(self).l(),
            final(self).range_pow() == old(self).range_pow(),
            forall|t: int, b: int|
                0 <= t < old(self).l() && 0 <= b < table_len(old(self).range_pow()) ==> #[trigger] final(self).history(t, b)
                    == if b == indices@[t] {
                    old(self).history(t, b).push(id)
                } else {
                    old(self).history(t, b)
                },
            r@.len() == old(self).l(),
            forall|t: int|
                0 <= t < old(self).l() ==> #[trigger] r@[t] == old(self).history(t, indices@[t] as int).len()
                    % (BUCKET_SIZE as nat),
    {
        let mut second_indices: Vec<usize> = Vec::with_capacity(self.l);
        let mut t: usize = 0;
        while t < self.l
            invariant
                self.wf(),
                t <= self.l,
                self.k == old(self).k,
                self.l == old(self).l,
                self.range_pow == old(self).range_pow,
                old(self).valid_indices(indices@),
                second_indices@.len() == t,
                forall|t2: int|
                    0 <= t2 < t ==> #[trigger] second_indices@[t2] == old(self).history(t2, indices@[t2] as int).len()
                        % (BUCKET_SIZE as nat),
                forall|t2: int|
                    0 <= t2 < self.l ==> #[trigger] old(self).history(t2, indices@[t2] as int).len() < usize::MAX,
                forall|t2: int, b: int|
                    0 <= t2 < self.l && 0 <= b < table_len(self.range_pow) ==> #[trigger] self.history(t2, b)
                        == if t2 < t && b == indices@[t2] {
                        old(self).history(t2, b).push(id)
                    } else {
                        old(self).history(t2, b)
                    },
            decreases self.l - t,
        {
            let b = indices[t];
            proof {
                self.lemma_bucket_wf(t as int, b as int);
                self.bucket_at(t as int, b as int).lemma_wf_facts();
                assert(self.history(t as int, b as int) == old(self).history(t as int, indices@[t as int] as int));
            }
            let ghost mid = *self;
            let slot = self.bucket[t][b].add(id);
            proof {
                assert forall|t2: int, b2: int|
                    0 <= t2 < self.l && 0 <= b2 < table_len(self.range_pow) implies #[trigger] self.history(t2, b2)
                        == if t2 == t && b2 == b {
                        mid.history(t2, b2).push(id)
                    } else {
                        mid.history(t2, b2)
                    } by {
                    if t2 != t {
                        assert(self.bucket@[t2] == mid.bucket@[t2]);
                    } else if b2 != b {
                        assert(self.bucket@[t2]@[b2] == mid.bucket@[t2]@[b2]);
                    }
                }
            }
            second_indices.push(slot);
            t = t + 1;
        }
        second_indices
    }

    /// The ids in the selected bucket of every table, table by table.
    pub fn get_raw(&self, indices: &[usize]) -> (r: Vec<u32>)
        requires
            self.wf(),
            self.valid_indices(indices@),
        ensures
            r@ == self.raw_ids(indices@, self.l() as int),
    {
        let mut r: Vec<u32> = Vec::new();
        let mut t: usize = 0;
        while t < self.l
            invariant
                self.wf(),
                t <= self.l,
                self.valid_indices(indices@),
                r@ == self.raw_ids(indices@, t as int),
            decreases self.l - t,
        {
            let b = indices[t];
            proof {
                self.lemma_bucket_wf(t as int, b as int);
            }
            let ids = self.bucket[t][b].get_all();
            let mut p: usize = 0;
            let ghost before = r@;
            while p < ids.len()
                invariant
                    p <= ids@.len(),
                    r@ == before + ids@.subrange(0, p as int),
                decreases ids@.len() - p,
            {
                r.push(ids[p]);
                p = p + 1;
                proof {
                    assert(r@ =~= before + ids@.subrange(0, p as int));
                }
            }
            proof {
                assert(ids@.subrange(0, ids@.len() as int) =~= ids@);
            }
            t = t + 1;
        }
        r
    }

    /// Number of insertions into bucket `b` of table `t` since the last clear.
    pub fn get_bucket_size(&self, t: usize, b: usize) -> (r: usize)
        requires
            self.wf(),
            t < self.l(),
            b < table_len(self.range_pow()),
        ensures
            r == self.history(t as int, b as int).len(),
    {
        proof {
            self.lemma_bucket_wf(t as int, b as int);
        }
        self.bucket[t][b].get_size()
    }

    pub fn get_l(&self) -> (r: usize)
        ensures
            r == self.l(),
    {
        self.l
    }

    pub fn get_range_pow(&self) -> (r: usize)
        ensures
            r == self.range_pow(),
    {
        self.range_pow
    }
}

} // verus!
