use vstd::prelude::*;

verus! {

/// Capacity of one bucket of the LSH index.
pub const BUCKET_SIZE: usize = 128;

/// A bounded FIFO list of neuron ids.
///
/// The `n`-th insertion since the last `clear` (counting from 0) goes to slot
/// `n % BUCKET_SIZE`, so the visible slots always hold the most recent
/// `BUCKET_SIZE` insertions.
pub struct Bucket {
    arr: Vec<u32>,
    count: usize,
    history: Ghost<Seq<u32>>,
}

impl Bucket {
    /// Every id inserted since the last clear, oldest first.
    pub closed spec fn history(&self) -> Seq<u32> {
        self.history@
    }

    /// Number of insertions since the last clear.
    pub closed spec fn count(&self) -> nat {
        self.count as nat
    }

    /// The ids visible through `get_all`.
    pub closed spec fn contents(&self) -> Seq<u32> {
        self.arr@.subrange(0, visible_len(self.count as nat) as int)
    }

    pub closed spec fn wf(&self) -> bool {
        &&& self.arr@.len() == BUCKET_SIZE
        &&& self.count == self.history@.len()
        &&& forall|q: int|
            #![trigger self.history@[q]]
            0 <= q < self.count && self.count <= q + BUCKET_SIZE ==> self.arr@[q % (BUCKET_SIZE as int)]
                == self.history@[q]
    }

    pub proof fn lemma_wf_facts(&self)
        requires
            self.wf(),
        ensures
            self.count() == self.history().len(),
            self.contents().len() == visible_len(self.count()),
    {
    }

    /// The visible contents hold exactly the last `BUCKET_SIZE` insertions:
    /// the one made `q` insertions after the clear sits at `q % BUCKET_SIZE`.
    pub proof fn lemma_contents(&self)
        requires
            self.wf(),
        ensures
            forall|q: int|
                #![trigger self.history()[q]]
                0 <= q < self.count() && self.count() <= q + BUCKET_SIZE ==> self.contents()[q
                    % (BUCKET_SIZE as int)] == self.history()[q],
            forall|p: int|
                0 <= p < self.contents().len() ==> #[trigger] self.contents()[p] == self.history()[window_index(self.count(), p)],
    {
        assert forall|p: int| 0 <= p < self.contents().len() implies #[trigger] self.contents()[p]
            == self.history()[window_index(self.count(), p)] by {
            lemma_window_index(self.count(), p);
        }
    }

    /// Two buckets with the same insertion history show the same contents.
    pub proof fn lemma_contents_determined(&self, other: &Bucket)
        requires
            self.wf(),
            other.wf(),
            self.history() == other.history(),
        ensures
            self.contents() == other.contents(),
    {
        self.lemma_contents();
        other.lemma_contents();
        assert(self.contents() =~= other.contents());
    }

    pub fn new() -> (r: Self)
        ensures
            r.wf(),
            r.count() == 0,
            r.history() == Seq::<u32>::empty(),
    {
        let mut arr: Vec<u32> = Vec::with_capacity(BUCKET_SIZE);
        let mut i: usize = 0;
        while i < BUCKET_SIZE
            invariant
                i <= BUCKET_SIZE,
                arr@.len() == i,
            decreases BUCKET_SIZE - i,
        {
            arr.push(0);
            i = i + 1;
        }
        Bucket { arr, count: 0, history: Ghost(Seq::empty()) }
    }

    /// Forgets every insertion; the storage is kept as it is.
    pub fn clear(&mut self)
        requires
            old(self).wf(),
        ensures
            final(self).wf(),
            final(self).count() == 0,
            final(self).history() == Seq::<u32>::empty(),
    {
        self.count = 0;
        self.history = Ghost(Seq::empty());
    }

    /// The number of insertions since the last clear.
    pub fn get_size(&self) -> (r: usize)
        requires
            self.wf(),
        ensures
            r == self.count(),
            r == self.history().len(),
    {
        self.count
    }

    /// Inserts `id` at slot `count % BUCKET_SIZE` (overwriting the oldest id
    /// once the bucket is full) and returns that slot.
    pub fn add(&mut self, id: u32) -> (r: usize)
        requires
            old(self).wf(),
            old(self).count() < usize::MAX,
        ensures
            final(self).wf(),
            final(self).history() == old(self).history().push(id),
            r == old(self).count() % (BUCKET_SIZE as nat),
            final(self).contents()[r as int] == id,
    {
        let ghost h0 = self.history@;
        let ghost c0 = self.count as int;
        self.count = self.count + 1;
        let index = (self.count - 1) % BUCKET_SIZE;
        self.arr.set(index, id);
        self.history = Ghost(h0.push(id));
        assert forall|q: int|
            #![trigger self.history@[q]]
            0 <= q < self.count && self.count <= q + BUCKET_SIZE implies self.arr@[q
                % (BUCKET_SIZE as int)] == self.history@[q] by {
            if q < c0 {
                assert(q % 128 != c0 % 128) by {
                    lemma_mod_distinct(q, c0);
                }
                assert(self.history@[q] == h0[q]);
            }
        }
        proof {
            lemma_window_index(self.count as nat, index as int);
            assert(index < visible_len(self.count as nat));
        }
        index
    }

    /// The visible ids: slots `0 .. min(count, BUCKET_SIZE)`.
    pub fn get_all(&self) -> (r: &[u32])
        requires
            self.wf(),
        ensures
            r@ == self.contents(),
            r@.len() == visible_len(self.count()),
    {
        let n: usize = if self.count < BUCKET_SIZE {
            self.count
        } else {
            BUCKET_SIZE
        };
        vstd::slice::slice_subrange(self.arr.as_slice(), 0, n)
    }
}

/// `min(count, BUCKET_SIZE)`.
pub open spec fn visible_len(count: nat) -> nat {
    if count < BUCKET_SIZE {
        count
    } else {
        BUCKET_SIZE as nat
    }
}

/// The insertion, among the last `BUCKET_SIZE` of `count`, that went to slot `p`.
pub open spec fn window_index(count: nat, p: int) -> int {
    if count <= BUCKET_SIZE {
        p
    } else {
        let base = count - BUCKET_SIZE;
        base + (p - base % (BUCKET_SIZE as int) + BUCKET_SIZE) % (BUCKET_SIZE as int)
    }
}

pub proof fn lemma_window_index(count: nat, p: int)
    requires
        0 <= p < visible_len(count),
    ensures
        0 <= window_index(count, p) < count,
        count <= window_index(count, p) + BUCKET_SIZE,
        window_index(count, p) % (BUCKET_SIZE as int) == p,
{
    if count > BUCKET_SIZE {
        let base = count - 128;
        let w = base + (p - base % 128 + 128) % 128;
        assert(w % 128 == p) by (nonlinear_arith)
            requires
                w == base + (p - base % 128 + 128) % 128,
                0 <= p < 128,
                base >= 0,
        {
            lemma_mod_shift(base, p);
        }
    }
}

proof fn lemma_mod_shift(base: int, p: int)
    requires
        0 <= p < 128,
        base >= 0,
    ensures
        (base + (p - base % 128 + 128) % 128) % 128 == p,
{
    let r = base % 128;
    let d = base / 128;
    assert(base == 128 * d + r) by (nonlinear_arith)
        requires
            r == base % 128,
            d == base / 128,
    ;
    assert(0 <= r < 128);
    let e = (p - r + 128) % 128;
    if p >= r {
        assert(e == p - r);
    } else {
        assert(e == p - r + 128);
    }
    assert((128 * d + r + e) % 128 == (r + e) % 128) by (nonlinear_arith)
        requires
            0 <= r + e,
    {
        vstd::arithmetic::div_mod::lemma_mod_multiples_vanish(d, r + e, 128);
    }
}

proof fn lemma_mod_distinct(q: int, c: int)
    requires
        0 <= q < c,
        c < q + 128,
    ensures
        q % 128 != c % 128,
{
    let qd = q / 128;
    let cd = c / 128;
    assert(q == 128 * qd + q % 128) by (nonlinear_arith)
        requires
            qd == q / 128,
    ;
    assert(c == 128 * cd + c % 128) by (nonlinear_arith)
        requires
            cd == c / 128,
    ;
    if q % 128 == c % 128 {
        assert(c - q == 128 * (cd - qd)) by (nonlinear_arith)
            requires
                q == 128 * qd + q % 128,
                c == 128 * cd + c % 128,
                q % 128 == c % 128,
        ;
        assert(false) by (nonlinear_arith)
            requires
                c - q == 128 * (cd - qd),
                0 < c - q < 128,
        ;
    }
}

} // verus!
