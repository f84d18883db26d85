use vstd::prelude::*;

use crate::bucket::BUCKET_SIZE;
use crate::densified_wta_hash::DensifiedWtaHash;
use crate::hasher::{lemma_table_indices_in_range, shifts_fit, sparse_to_dense, table_indices, BIN_SIZE};
use crate::lsh::{table_len, Lsh};
use crate::random::{random_usize, shuffle};

verus! {

/// Activation of a layer's neurons.
#[derive(Clone, Copy, Debug, PartialEq, Eq)]
pub enum NodeType {
    Relu,
    Softmax,
    OriginalSoftmax,
}

/// A sparse forward pass tops its candidates up to this many neurons.
pub const MIN_ACTIVE: usize = 1000;

/// `acc` with `x` appended, unless `x` is not below `n` or is already there.
pub open spec fn add_one(acc: Seq<usize>, x: u32, n: nat) -> Seq<usize> {
    if x < n && !acc.contains(x as usize) {
        acc.push(x as usize)
    } else {
        acc
    }
}

/// `add_one` for each id of `s` in turn.
pub open spec fn add_all(acc: Seq<usize>, s: Seq<u32>, n: nat) -> Seq<usize>
    decreases s.len(),
{
    if s.len() == 0 {
        acc
    } else {
        add_one(add_all(acc, s.drop_last(), n), s.last(), n)
    }
}

/// Padding: from step `i` on, while fewer than `min_active` ids are held,
/// add `rand_ids[(i + offset) % n]`; stop after step `n - 1`.
pub open spec fn pad(acc: Seq<usize>, rand_ids: Seq<u32>, offset: nat, n: nat, min_active: nat, i: nat) -> Seq<usize>
    decreases n - i,
{
    if i >= n || acc.len() >= min_active {
        acc
    } else {
        pad(add_one(acc, rand_ids[((i + offset) as int) % (n as int)], n), rand_ids, offset, n, min_active, i + 1)
    }
}

/// The forced ids, then the candidates, each id below `n` once, in order of
/// first appearance.
pub open spec fn forced_and_candidates(force: Seq<u32>, candidates: Seq<u32>, n: nat) -> Seq<usize> {
    add_all(add_all(Seq::empty(), force, n), candidates, n)
}

/// The size of a sparse pass: the forced ids and candidates, topped up to
/// `min(min_active, n)`.
pub open spec fn active_len(distinct: nat, min_active: nat, n: nat) -> nat {
    let floor = if min_active < n {
        min_active
    } else {
        n
    };
    if distinct < floor {
        floor
    } else {
        distinct
    }
}

/// The active neurons of a sparse pass: the forced ids, then the candidates,
/// then padding, each id below `n` once, in order of first appearance.
pub open spec fn active_set(
    force: Seq<u32>,
    candidates: Seq<u32>,
    rand_ids: Seq<u32>,
    offset: nat,
    n: nat,
    min_active: nat,
) -> Seq<usize> {
    pad(forced_and_candidates(force, candidates, n), rand_ids, offset, n, min_active, 0)
}

/// The ids `0 .. n`.
pub open spec fn id_range(n: nat) -> Seq<u32> {
    Seq::new(n, |i: int| i as u32)
}

/// `v` holds the ids `0 .. n` in some order.
pub open spec fn is_permutation_of_range(v: Seq<u32>, n: nat) -> bool {
    &&& n <= u32::MAX + 1
    &&& v.to_multiset() == id_range(n).to_multiset()
}

/// A duplicate-free set of ids below `n`.
pub open spec fn id_set_ok(acc: Seq<usize>, n: nat) -> bool {
    &&& acc.no_duplicates()
    &&& forall|p: int| 0 <= p < acc.len() ==> #[trigger] acc[p] < n
}

/// Marks that mirror the membership of `acc` among `0 .. n`.
spec fn marks_ok(marks: Seq<bool>, acc: Seq<usize>, n: nat) -> bool {
    &&& marks.len() == n
    &&& forall|x: int| 0 <= x < n ==> #[trigger] marks[x] == acc.contains(x as usize)
}

/// Appends `x` to `acc` unless it is out of range or already marked.
fn insert_id(acc: &mut Vec<usize>, marks: &mut Vec<bool>, x: u32, n: usize)
    requires
        id_set_ok(old(acc)@, n as nat),
        marks_ok(old(marks)@, old(acc)@, n as nat),
    ensures
        final(acc)@ == add_one(old(acc)@, x, n as nat),
        id_set_ok(final(acc)@, n as nat),
        marks_ok(final(marks)@, final(acc)@, n as nat),
{
    if (x as usize) < n && !marks[x as usize] {
        let ghost a0 = acc@;
        marks.set(x as usize, true);
        acc.push(x as usize);
        proof {
            assert forall|y: int| 0 <= y < n implies #[trigger] marks@[y] == acc@.contains(y as usize) by {
                assert(acc@[a0.len() as int] == x as usize);
                if a0.contains(y as usize) {
                    let p = choose|p: int| 0 <= p < a0.len() && a0[p] == y as usize;
                    assert(acc@[p] == y as usize);
                }
                if acc@.contains(y as usize) {
                    let p = choose|p: int| 0 <= p < acc@.len() && acc@[p] == y as usize;
                    if p < a0.len() {
                        assert(a0[p] == y as usize);
                    }
                }
            }
        }
    } else {
        proof {
            if (x as usize) < n {
                assert(old(acc)@.contains(x as usize));
            }
        }
    }
}

/// Adds each id of `s` with `insert_id`.
fn insert_all(acc: &mut Vec<usize>, marks: &mut Vec<bool>, s: &[u32], n: usize)
    requires
        id_set_ok(old(acc)@, n as nat),
        marks_ok(old(marks)@, old(acc)@, n as nat),
    ensures
        final(acc)@ == add_all(old(acc)@, s@, n as nat),
        id_set_ok(final(acc)@, n as nat),
        marks_ok(final(marks)@, final(acc)@, n as nat),
        forall|x: usize| #[trigger] old(acc)@.contains(x) ==> final(acc)@.contains(x),
        forall|p: int| 0 <= p < s@.len() && s@[p] < n ==> final(acc)@.contains(#[trigger] s@[p] as usize),
{
    let mut p: usize = 0;
    while p < s.len()
        invariant
            p <= s@.len(),
            acc@ == add_all(old(acc)@, s@.subrange(0, p as int), n as nat),
            id_set_ok(acc@, n as nat),
            marks_ok(marks@, acc@, n as nat),
            forall|x: usize| #[trigger] old(acc)@.contains(x) ==> acc@.contains(x),
            forall|q: int| 0 <= q < p && s@[q] < n ==> acc@.contains(#[trigger] s@[q] as usize),
        decreases s@.len() - p,
    {
        let ghost a0 = acc@;
        insert_id(acc, marks, s[p], n);
        proof {
            assert(s@.subrange(0, p + 1).drop_last() =~= s@.subrange(0, p as int));
            assert forall|x: usize| #[trigger] a0.contains(x) implies acc@.contains(x) by {
                let q = choose|q: int| 0 <= q < a0.len() && a0[q] == x;
                assert(acc@[q] == x);
            }
            if s@[p as int] < n && !a0.contains(s@[p as int] as usize) {
                assert(acc@[a0.len() as int] == s@[p as int] as usize);
            }
        }
        p = p + 1;
    }
    proof {
        assert(s@.subrange(0, s@.len() as int) =~= s@);
    }
}

/// A duplicate-free list of ids below `n` that holds every id below `n` is at
/// least `n` long.
proof fn lemma_covering_len(acc: Seq<usize>, n: nat)
    requires
        id_set_ok(acc, n),
        forall|x: int| 0 <= x < n ==> acc.contains(#[trigger] (x as usize)),
        n <= usize::MAX,
    ensures
        acc.len() >= n,
{
    let all = Seq::new(n, |x: int| x as usize);
    assert(all.no_duplicates());
    all.unique_seq_to_set();
    acc.unique_seq_to_set();
    assert forall|x: usize| #[trigger] all.to_set().contains(x) implies acc.to_set().contains(x) by {
        let q = choose|q: int| 0 <= q < all.len() && all[q] == x;
        assert(acc.contains(q as usize));
    }
    vstd::set_lib::lemma_len_subset(all.to_set(), acc.to_set());
}

/// A duplicate-free list of ids below `n` is at most `n` long.
proof fn lemma_id_set_len(acc: Seq<usize>, n: nat)
    requires
        id_set_ok(acc, n),
        n <= usize::MAX,
    ensures
        acc.len() <= n,
{
    let all = Seq::new(n, |x: int| x as usize);
    assert(all.no_duplicates());
    all.unique_seq_to_set();
    acc.unique_seq_to_set();
    assert forall|x: usize| #[trigger] acc.to_set().contains(x) implies all.to_set().contains(x) by {
        let q = choose|q: int| 0 <= q < acc.len() && acc[q] == x;
        assert(all[x as int] == x);
    }
    vstd::set_lib::lemma_len_subset(acc.to_set(), all.to_set());
}

/// Selects the active neurons of a sparse pass among `0 .. n`: the forced ids,
/// the candidates, and then ids of `rand_ids` from position `offset` on
/// (wrapping) until `min_active` ids are held or `rand_ids` is used up. Ids
/// not below `n` are skipped.
pub fn select_active_nodes(
    force: &[u32],
    candidates: &[u32],
    rand_ids: &[u32],
    offset: usize,
    min_active: usize,
    n: usize,
) -> (r: Vec<usize>)
    requires
        rand_ids@.len() == n,
        offset < n,
    ensures
        r@ == active_set(force@, candidates@, rand_ids@, offset as nat, n as nat, min_active as nat),
        id_set_ok(r@, n as nat),
        forall|p: int| 0 <= p < force@.len() && force@[p] < n ==> r@.contains(#[trigger] force@[p] as usize),
        forall|p: int|
            0 <= p < candidates@.len() && candidates@[p] < n ==> r@.contains(#[trigger] candidates@[p] as usize),
        is_permutation_of_range(rand_ids@, n as nat) ==> r@.len() == active_len(
            forced_and_candidates(force@, candidates@, n as nat).len(),
            min_active as nat,
            n as nat,
        ),
        is_permutation_of_range(rand_ids@, n as nat) ==> r@.len() >= min_active || r@.len() >= n,
{
    let mut marks: Vec<bool> = Vec::with_capacity(n);
    let mut x: usize = 0;
    while x < n
        invariant
            x <= n,
            marks@.len() == x,
            forall|y: int| 0 <= y < x ==> !#[trigger] marks@[y],
        decreases n - x,
    {
        marks.push(false);
        x = x + 1;
    }
    let mut acc: Vec<usize> = Vec::new();
    proof {
        assert(marks_ok(marks@, acc@, n as nat));
    }
    insert_all(&mut acc, &mut marks, force, n);
    let ghost forced = acc@;
    insert_all(&mut acc, &mut marks, candidates, n);
    let ghost start = acc@;
    let mut i: usize = 0;
    while i < n
        invariant_except_break
            acc@.len() < min_active ==> forall|q: int|
                0 <= q < i && rand_ids@[(q + offset) % (n as int)] < n ==> acc@.contains(
                    #[trigger] rand_ids@[(q + offset) % (n as int)] as usize,
                ),
        invariant
            i <= n,
            rand_ids@.len() == n,
            offset < n,
            id_set_ok(acc@, n as nat),
            marks_ok(marks@, acc@, n as nat),
            pad(start, rand_ids@, offset as nat, n as nat, min_active as nat, 0) == pad(
                acc@,
                rand_ids@,
                offset as nat,
                n as nat,
                min_active as nat,
                i as nat,
            ),
            forall|y: usize| #[trigger] start.contains(y) ==> acc@.contains(y),
            acc@.len() >= start.len(),
            start.len() >= min_active ==> acc@ == start,
            start.len() < min_active ==> acc@.len() <= min_active,
        ensures
            acc@ == pad(start, rand_ids@, offset as nat, n as nat, min_active as nat, 0),
            acc@.len() < min_active ==> forall|q: int|
                0 <= q < n && rand_ids@[(q + offset) % (n as int)] < n ==> acc@.contains(
                    #[trigger] rand_ids@[(q + offset) % (n as int)] as usize,
                ),
        decreases n - i,
    {
        if acc.len() >= min_active {
            break;
        }
        let ghost a0 = acc@;
        let j = if i < n - offset {
            i + offset
        } else {
            i - (n - offset)
        };
        proof {
            if i < n - offset {
                vstd::arithmetic::div_mod::lemma_small_mod((i + offset) as nat, n as nat);
            } else {
                vstd::arithmetic::div_mod::lemma_mod_add_multiples_vanish(j as int, n as int);
                vstd::arithmetic::div_mod::lemma_small_mod(j as nat, n as nat);
            }
            assert(j == (i + offset) % (n as int));
        }
        insert_id(&mut acc, &mut marks, rand_ids[j], n);
        proof {
            assert forall|y: usize| #[trigger] a0.contains(y) implies acc@.contains(y) by {
                let q = choose|q: int| 0 <= q < a0.len() && a0[q] == y;
                assert(acc@[q] == y);
            }
            assert forall|y: usize| #[trigger] start.contains(y) implies acc@.contains(y) by {
                assert(a0.contains(y));
            }
            if acc@.len() < min_active {
                assert forall|q: int|
                    0 <= q < i + 1 && rand_ids@[(q + offset) % (n as int)] < n implies acc@.contains(
                    #[trigger] rand_ids@[(q + offset) % (n as int)] as usize,
                ) by {
                    if q < i {
                        assert(a0.contains(rand_ids@[(q + offset) % (n as int)] as usize));
                    } else if !a0.contains(rand_ids@[j as int] as usize) {
                        assert(acc@[a0.len() as int] == rand_ids@[j as int] as usize);
                    }
                }
            }
        }
        i = i + 1;
    }
    proof {
        assert forall|p: int| 0 <= p < force@.len() && force@[p] < n implies acc@.contains(
            #[trigger] force@[p] as usize,
        ) by {
            assert(forced.contains(force@[p] as usize));
            assert(start.contains(force@[p] as usize));
        }
        assert forall|p: int| 0 <= p < candidates@.len() && candidates@[p] < n implies acc@.contains(
            #[trigger] candidates@[p] as usize,
        ) by {
            assert(start.contains(candidates@[p] as usize));
        }
        lemma_id_set_len(acc@, n as nat);
        if is_permutation_of_range(rand_ids@, n as nat) && acc@.len() < min_active {
            lemma_padding_covers(acc@, rand_ids@, offset as nat, n as nat);
            lemma_covering_len(acc@, n as nat);
        }
    }
    acc
}

/// Walking a permutation of `0 .. n` from any offset, with wrap-around,
/// meets every id below `n`.
proof fn lemma_padding_covers(acc: Seq<usize>, rand_ids: Seq<u32>, offset: nat, n: nat)
    requires
        is_permutation_of_range(rand_ids, n),
        rand_ids.len() == n,
        offset < n,
        n <= usize::MAX,
        forall|q: int|
            0 <= q < n && rand_ids[(q + offset) % (n as int)] < n ==> acc.contains(
                #[trigger] rand_ids[(q + offset) % (n as int)] as usize,
            ),
    ensures
        forall|x: int| 0 <= x < n ==> acc.contains(#[trigger] (x as usize)),
{
    assert forall|x: int| 0 <= x < n implies acc.contains(#[trigger] (x as usize)) by {
        let base = id_range(n);
        rand_ids.to_multiset_ensures();
        base.to_multiset_ensures();
        assert(base[x] == x as u32);
        assert(base.contains(x as u32));
        assert(rand_ids.to_multiset().count(x as u32) > 0);
        assert(rand_ids.contains(x as u32));
        let j = choose|j: int| 0 <= j < rand_ids.len() && rand_ids[j] == x as u32;
        let q: int = if j >= offset {
            j - offset
        } else {
            j + n - offset
        };
        assert((q + offset) % (n as int) == j) by {
            if j >= offset {
                vstd::arithmetic::div_mod::lemma_small_mod(j as nat, n);
            } else {
                vstd::arithmetic::div_mod::lemma_mod_add_multiples_vanish(j, n as int);
                vstd::arithmetic::div_mod::lemma_small_mod(j as nat, n);
            }
        }
        assert(acc.contains(rand_ids[(q + offset) % (n as int)] as usize));
    }
}

/// The hashing side of a layer: its hasher, its LSH index over the neurons'
/// weight vectors, and the shuffled ids used to pad sparse passes. Weights are
/// given as order keys (see `hasher::order_key`).
pub struct LayerIndex {
    hasher: DensifiedWtaHash,
    hash_tables: Lsh,
    rand_ids: Vec<u32>,
    size: usize,
    k: usize,
    l: usize,
    previous_size: usize,
    min_active_nodes: usize,
}

/// The bucket that the weight vector `w` selects in table `t`.
pub open spec fn bucket_of(hasher: DensifiedWtaHash, k: nat, l: nat, range_pow: usize, w: Seq<u32>, t: int) -> usize {
    table_indices(hasher.hash_of(w), k, l, range_pow)[t]
}

/// The ids, among neurons `0 .. j`, whose weights select bucket `b` of table
/// `t`, in increasing order.
pub open spec fn ids_into(
    hasher: DensifiedWtaHash,
    k: nat,
    l: nat,
    range_pow: usize,
    weights: Seq<Vec<u32>>,
    t: int,
    b: int,
    j: int,
) -> Seq<u32>
    decreases j,
{
    if j <= 0 {
        Seq::empty()
    } else {
        let prev = ids_into(hasher, k, l, range_pow, weights, t, b, j - 1);
        if bucket_of(hasher, k, l, range_pow, weights[j - 1]@, t) == b {
            prev.push((j - 1) as u32)
        } else {
            prev
        }
    }
}

proof fn lemma_ids_into_len(
    hasher: DensifiedWtaHash,
    k: nat,
    l: nat,
    range_pow: usize,
    weights: Seq<Vec<u32>>,
    t: int,
    b: int,
    j: int,
)
    requires
        j >= 0,
    ensures
        ids_into(hasher, k, l, range_pow, weights, t, b, j).len() <= j,
    decreases j,
{
    if j > 0 {
        lemma_ids_into_len(hasher, k, l, range_pow, weights, t, b, j - 1);
    }
}

proof fn lemma_ids_into_below(
    hasher: DensifiedWtaHash,
    k: nat,
    l: nat,
    range_pow: usize,
    weights: Seq<Vec<u32>>,
    t: int,
    b: int,
    j: int,
)
    requires
        0 <= j <= u32::MAX + 1,
    ensures
        forall|q: int|
            0 <= q < ids_into(hasher, k, l, range_pow, weights, t, b, j).len() ==> #[trigger] ids_into(
                hasher,
                k,
                l,
                range_pow,
                weights,
                t,
                b,
                j,
            )[q] < j,
    decreases j,
{
    if j > 0 {
        lemma_ids_into_below(hasher, k, l, range_pow, weights, t, b, j - 1);
        let prev = ids_into(hasher, k, l, range_pow, weights, t, b, j - 1);
        let cur = ids_into(hasher, k, l, range_pow, weights, t, b, j);
        assert forall|q: int| 0 <= q < cur.len() implies #[trigger] cur[q] < j by {
            if q < prev.len() {
                assert(cur[q] == prev[q]);
            } else {
                assert(cur[q] == (j - 1) as u32);
            }
        }
    }
}

proof fn lemma_ids_into_contains(
    hasher: DensifiedWtaHash,
    k: nat,
    l: nat,
    range_pow: usize,
    weights: Seq<Vec<u32>>,
    t: int,
    i: int,
    j: int,
)
    requires
        0 <= i < j,
    ensures
        ids_into(hasher, k, l, range_pow, weights, t, bucket_of(hasher, k, l, range_pow, weights[i]@, t) as int, j).contains(
            i as u32,
        ),
    decreases j,
{
    let b = bucket_of(hasher, k, l, range_pow, weights[i]@, t) as int;
    let s = ids_into(hasher, k, l, range_pow, weights, t, b, j);
    if i == j - 1 {
        assert(s.last() == i as u32);
    } else {
        lemma_ids_into_contains(hasher, k, l, range_pow, weights, t, i, j - 1);
        let prev = ids_into(hasher, k, l, range_pow, weights, t, b, j - 1);
        let p = choose|p: int| 0 <= p < prev.len() && prev[p] == i as u32;
        assert(s[p] == i as u32);
    }
}

/// Weight vectors for `n` neurons, each of length `m`.
pub open spec fn weights_ok(weights: Seq<Vec<u32>>, n: nat, m: nat) -> bool {
    &&& weights.len() == n
    &&& forall|i: int| 0 <= i < n ==> (#[trigger] weights[i])@.len() == m
}

impl LayerIndex {
    pub closed spec fn size_spec(&self) -> nat {
        self.size as nat
    }

    pub closed spec fn k(&self) -> nat {
        self.k as nat
    }

    pub closed spec fn l(&self) -> nat {
        self.l as nat
    }

    pub closed spec fn previous_size(&self) -> nat {
        self.previous_size as nat
    }

    pub closed spec fn hasher(&self) -> DensifiedWtaHash {
        self.hasher
    }

    pub closed spec fn tables(&self) -> Lsh {
        self.hash_tables
    }

    pub closed spec fn rand_ids(&self) -> Seq<u32> {
        self.rand_ids@
    }

    pub closed spec fn min_active(&self) -> nat {
        self.min_active_nodes as nat
    }

    pub closed spec fn wf(&self) -> bool {
        &&& self.hasher.wf()
        &&& self.hasher.size_spec() == self.k * self.l
        &&& self.hasher.number_of_bits() == self.previous_size
        &&& BIN_SIZE <= self.previous_size
        &&& self.hash_tables.wf()
        &&& self.hash_tables.k() == self.k
        &&& self.hash_tables.l() == self.l
        &&& self.hash_tables.ids_below(self.size as nat)
        &&& BIN_SIZE * (self.k * self.l) <= usize::MAX
        &&& 1 <= self.size <= u32::MAX
        &&& self.rand_ids@.len() == self.size
        &&& is_permutation_of_range(self.rand_ids@, self.size as nat)
        &&& self.min_active_nodes == MIN_ACTIVE
    }

    /// What a well-formed index keeps: a hasher of `k·l` slots over the
    /// previous layer, tables holding only ids of this layer's neurons, and
    /// padding ids that are a permutation of them.
    pub proof fn lemma_wf_facts(&self)
        requires
            self.wf(),
        ensures
            self.hasher().wf(),
            self.hasher().size_spec() == self.k() * self.l(),
            self.hasher().number_of_bits() == self.previous_size(),
            self.tables().wf(),
            self.tables().k() == self.k(),
            self.tables().l() == self.l(),
            self.tables().ids_below(self.size_spec()),
            1 <= self.size_spec() <= u32::MAX,
            is_permutation_of_range(self.rand_ids(), self.size_spec()),
            self.rand_ids().len() == self.size_spec(),
            self.min_active() == MIN_ACTIVE,
    {
    }

    /// The bucket that the weight vector `w` selects in table `t`.
    pub open spec fn bucket_of(&self, w: Seq<u32>, t: int) -> usize {
        bucket_of(self.hasher(), self.k(), self.l(), self.tables().range_pow(), w, t)
    }

    /// The index holds exactly what a rehash from `weights` puts there: each
    /// bucket has received, in order, the neurons whose weights select it.
    pub open spec fn indexed_from(&self, weights: Seq<Vec<u32>>) -> bool {
        forall|t: int, b: int|
            0 <= t < self.l() && 0 <= b < table_len(self.tables().range_pow()) ==> #[trigger] self.tables().history(t, b)
                == ids_into(self.hasher(), self.k(), self.l(), self.tables().range_pow(), weights, t, b, self.size_spec() as int)
    }

    /// The candidate ids that the LSH index returns for the sparse key vector
    /// `(values, ids)` of the previous layer.
    pub open spec fn candidates(&self, values: Seq<u32>, ids: Seq<usize>) -> Seq<u32> {
        self.tables().raw_ids(
            table_indices(
                self.hasher().hash_of(sparse_to_dense(values, ids, self.previous_size())),
                self.k(),
                self.l(),
                self.tables().range_pow(),
            ),
            self.l() as int,
        )
    }

    /// The hashing side of a layer of `number_of_nodes` neurons whose inputs
    /// have `previous_size` positions, with `l` tables of `2^range_pow` buckets
    /// keyed by `k` slots each. The index starts empty: `rehash` fills it.
    pub fn new(number_of_nodes: usize, previous_size: usize, k: usize, l: usize, range_pow: usize) -> (r: Self)
        requires
            1 <= number_of_nodes <= u32::MAX,
            BIN_SIZE <= previous_size,
            BIN_SIZE * (k * l) <= usize::MAX,
            shifts_fit(k as nat),
            range_pow < usize::BITS,
        ensures
            r.wf(),
            r.size_spec() == number_of_nodes,
            r.previous_size() == previous_size,
            r.k() == k,
            r.l() == l,
            r.tables().range_pow() == range_pow,
            r.tables().is_empty(),
            is_permutation_of_range(r.rand_ids(), number_of_nodes as nat),
            r.hasher().size_spec() == k * l,
            r.hasher().number_of_bits() == previous_size,
    {
        let mut rand_ids: Vec<u32> = Vec::with_capacity(number_of_nodes);
        let mut i: usize = 0;
        while i < number_of_nodes
            invariant
                i <= number_of_nodes <= u32::MAX,
                rand_ids@ == id_range(i as nat),
            decreases number_of_nodes - i,
        {
            rand_ids.push(i as u32);
            i = i + 1;
            proof {
                assert(rand_ids@ =~= id_range(i as nat));
            }
        }
        shuffle(&mut rand_ids);
        proof {
            rand_ids@.to_multiset_ensures();
            id_range(number_of_nodes as nat).to_multiset_ensures();
        }
        assert(BIN_SIZE * (k * l) <= usize::MAX);
        let size = k * l;
        let hasher = DensifiedWtaHash::new(size, previous_size);
        let hash_tables = Lsh::new(k, l, range_pow);
        LayerIndex {
            hasher,
            hash_tables,
            rand_ids,
            size: number_of_nodes,
            k,
            l,
            previous_size,
            min_active_nodes: MIN_ACTIVE,
        }
    }

    /// Empties the index and puts every neuron `i` into the bucket that its
    /// weight vector `weights[i]` selects in each table.
    pub fn rehash(&mut self, weights: &Vec<Vec<u32>>)
        requires
            old(self).wf(),
            weights_ok(weights@, old(self).size_spec(), old(self).previous_size()),
        ensures
            final(self).wf(),
            final(self).indexed_from(weights@),
            final(self).hasher() == old(self).hasher(),
            final(self).rand_ids() == old(self).rand_ids(),
            final(self).size_spec() == old(self).size_spec(),
            final(self).previous_size() == old(self).previous_size(),
            final(self).k() == old(self).k(),
            final(self).l() == old(self).l(),
            final(self).tables().range_pow() == old(self).tables().range_pow(),
    {
        self.hash_tables.clear();
        let ghost rp = self.hash_tables.range_pow();
        let mut i: usize = 0;
        while i < self.size
            invariant
                self.wf(),
                i <= self.size,
                self.hasher == old(self).hasher,
                self.rand_ids == old(self).rand_ids,
                self.size == old(self).size,
                self.k == old(self).k,
                self.l == old(self).l,
                self.previous_size == old(self).previous_size,
                self.hash_tables.range_pow() == rp,
                rp == old(self).hash_tables.range_pow(),
                weights_ok(weights@, self.size as nat, self.previous_size as nat),
                forall|t: int, b: int|
                    0 <= t < self.l && 0 <= b < table_len(rp) ==> #[trigger] self.hash_tables.history(t, b)
                        == ids_into(self.hasher, self.k as nat, self.l as nat, rp, weights@, t, b, i as int),
            decreases self.size - i,
        {
            let hashes = self.hasher.hash(weights[i].as_slice());
            let hash_indices = self.hash_tables.hashes_to_indices(&hashes);
            proof {
                assert forall|t: int| 0 <= t < self.hash_tables.l() implies #[trigger] self.hash_tables.history(
                    t,
                    hash_indices@[t] as int,
                ).len() < usize::MAX by {
                    lemma_ids_into_len(self.hasher, self.k as nat, self.l as nat, rp, weights@, t, hash_indices@[t] as int, i as int);
                }
            }
            let ghost before = self.hash_tables;
            self.hash_tables.add(&hash_indices, i as u32);
            proof {
                assert forall|t: int, b: int|
                    0 <= t < self.l && 0 <= b < table_len(rp) implies #[trigger] self.hash_tables.history(t, b)
                        == ids_into(self.hasher, self.k as nat, self.l as nat, rp, weights@, t, b, i + 1) by {
                    assert(before.history(t, b) == ids_into(self.hasher, self.k as nat, self.l as nat, rp, weights@, t, b, i as int));
                    assert(hash_indices@[t] == bucket_of(self.hasher, self.k as nat, self.l as nat, rp, weights@[i as int]@, t));
                }
            }
            i = i + 1;
        }
        proof {
            assert forall|t: int, b: int, q: int|
                0 <= t < self.l && 0 <= b < table_len(rp) && 0 <= q < self.hash_tables.history(t, b).len()
                    implies #[trigger] self.hash_tables.history(t, b)[q] < self.size by {
                lemma_ids_into_below(self.hasher, self.k as nat, self.l as nat, rp, weights@, t, b, self.size as int);
            }
        }
    }

    /// Replaces the hasher with a freshly drawn one of the same shape. The
    /// index then no longer matches the hasher until the next `rehash`.
    pub fn update_table(&mut self)
        requires
            old(self).wf(),
        ensures
            final(self).wf(),
            final(self).tables() == old(self).tables(),
            final(self).rand_ids() == old(self).rand_ids(),
            final(self).size_spec() == old(self).size_spec(),
            final(self).previous_size() == old(self).previous_size(),
            final(self).k() == old(self).k(),
            final(self).l() == old(self).l(),
            final(self).hasher().size_spec() == old(self).hasher().size_spec(),
            final(self).hasher().number_of_bits() == old(self).hasher().number_of_bits(),
    {
        self.hasher = DensifiedWtaHash::new(self.k * self.l, self.previous_size);
    }

    /// The end-of-batch upkeep of the index: a rebuild first draws a new
    /// hasher, then a rehash refills the index from `weights` with the hasher
    /// now in place.
    pub fn maintain(&mut self, weights: &Vec<Vec<u32>>, rebuild: bool, rehash: bool)
        requires
            old(self).wf(),
            rehash ==> weights_ok(weights@, old(self).size_spec(), old(self).previous_size()),
        ensures
            final(self).wf(),
            rehash ==> final(self).indexed_from(weights@),
            !rehash ==> final(self).tables() == old(self).tables(),
            !rebuild ==> final(self).hasher() == old(self).hasher(),
            final(self).hasher().size_spec() == old(self).hasher().size_spec(),
            final(self).hasher().number_of_bits() == old(self).hasher().number_of_bits(),
            final(self).rand_ids() == old(self).rand_ids(),
            final(self).size_spec() == old(self).size_spec(),
            final(self).previous_size() == old(self).previous_size(),
            final(self).k() == old(self).k(),
            final(self).l() == old(self).l(),
            final(self).tables().range_pow() == old(self).tables().range_pow(),
    {
        if rebuild {
            self.update_table();
        }
        if rehash {
            self.rehash(weights);
        }
    }

    /// Reshuffles the ids used to pad sparse passes.
    pub fn random_nodes(&mut self)
        requires
            old(self).wf(),
        ensures
            final(self).wf(),
            final(self).hasher() == old(self).hasher(),
            final(self).tables() == old(self).tables(),
            final(self).size_spec() == old(self).size_spec(),
            final(self).previous_size() == old(self).previous_size(),
            final(self).k() == old(self).k(),
            final(self).l() == old(self).l(),
            final(self).rand_ids().to_multiset() == old(self).rand_ids().to_multiset(),
            is_permutation_of_range(final(self).rand_ids(), final(self).size_spec()),
    {
        shuffle(&mut self.rand_ids);
        proof {
            self.rand_ids@.to_multiset_ensures();
            old(self).rand_ids@.to_multiset_ensures();
        }
    }

    /// The active neurons of a pass whose previous layer holds the sparse key
    /// vector `(values, ids)`. A dense pass takes every neuron in order. A
    /// sparse pass takes `force`, the LSH candidates and padding from a random
    /// starting point of `rand_ids`, each neuron once.
    pub fn query_active_nodes(&self, values: &[u32], ids: &[usize], force: &[u32], dense: bool) -> (r: Vec<usize>)
        requires
            self.wf(),
            ids@.len() <= values@.len(),
        ensures
            dense ==> r@ == Seq::new(self.size_spec(), |i: int| i as usize),
            !dense ==> exists|offset: nat|
                offset < self.size_spec() && r@ == active_set(
                    force@,
                    self.candidates(values@, ids@),
                    self.rand_ids(),
                    offset,
                    self.size_spec(),
                    self.min_active(),
                ),
            !dense ==> forall|p: int|
                0 <= p < self.candidates(values@, ids@).len() ==> r@.contains(
                    #[trigger] self.candidates(values@, ids@)[p] as usize,
                ),
            !dense ==> r@.len() == active_len(
                forced_and_candidates(force@, self.candidates(values@, ids@), self.size_spec()).len(),
                MIN_ACTIVE as nat,
                self.size_spec(),
            ),
            id_set_ok(r@, self.size_spec()),
            forall|p: int| 0 <= p < force@.len() && force@[p] < self.size_spec() ==> r@.contains(#[trigger] force@[p] as usize),
            r@.len() >= MIN_ACTIVE || r@.len() >= self.size_spec(),
    {
        if dense {
            let mut r: Vec<usize> = Vec::with_capacity(self.size);
            let mut i: usize = 0;
            while i < self.size
                invariant
                    i <= self.size,
                    r@ == Seq::new(i as nat, |x: int| x as usize),
                decreases self.size - i,
            {
                r.push(i);
                i = i + 1;
                proof {
                    assert(r@ =~= Seq::new(i as nat, |x: int| x as usize));
                }
            }
            proof {
                assert(r@.no_duplicates());
                assert forall|p: int| 0 <= p < force@.len() && force@[p] < self.size implies r@.contains(
                    #[trigger] force@[p] as usize,
                ) by {
                    assert(r@[force@[p] as int] == force@[p] as usize);
                }
            }
            r
        } else {
            let hashes = self.hasher.hash_sparse(values, ids);
            let hash_indices = self.hash_tables.hashes_to_indices(&hashes);
            let candidates = self.hash_tables.get_raw(&hash_indices);
            let offset = random_usize() % self.size;
            let r = select_active_nodes(
                force,
                candidates.as_slice(),
                self.rand_ids.as_slice(),
                offset,
                self.min_active_nodes,
                self.size,
            );
            proof {
                assert(candidates@ == self.candidates(values@, ids@));
                self.hash_tables.lemma_raw_ids_below(hash_indices@, self.l as int, self.size as nat);
                assert(offset < self.size_spec() && r@ == active_set(
                    force@,
                    self.candidates(values@, ids@),
                    self.rand_ids(),
                    offset as nat,
                    self.size_spec(),
                    self.min_active(),
                ));
            }
            r
        }
    }

    pub fn get_size(&self) -> (r: usize)
        ensures
            r == self.size_spec(),
    {
        self.size
    }

    /// The LSH index.
    pub fn hash_tables(&self) -> (r: &Lsh)
        ensures
            r == self.tables(),
    {
        &self.hash_tables
    }
}

/// After a rehash from `weights`, every neuron `i` has been put into the bucket
/// that its weights select in every table `t`; while that bucket has received
/// no more than `BUCKET_SIZE` neurons, `i` is among its visible ids.
pub proof fn lemma_rehash_covers_every_neuron(index: &LayerIndex, weights: Seq<Vec<u32>>, i: int, t: int)
    requires
        index.wf(),
        weights_ok(weights, index.size_spec(), index.previous_size()),
        index.indexed_from(weights),
        0 <= i < index.size_spec(),
        0 <= t < index.l(),
    ensures
        index.bucket_of(weights[i]@, t) < table_len(index.tables().range_pow()),
        index.tables().history(t, index.bucket_of(weights[i]@, t) as int).contains(i as u32),
        index.tables().history(t, index.bucket_of(weights[i]@, t) as int).len() <= BUCKET_SIZE
            ==> index.tables().contents(t, index.bucket_of(weights[i]@, t) as int).contains(i as u32),
{
    let tables = index.tables();
    let rp = tables.range_pow();
    tables.lemma_range_pow();
    let w = weights[i]@;
    lemma_table_indices_in_range(index.hasher().hash_of(w), index.k(), index.l(), rp);
    let b = index.bucket_of(w, t) as int;
    lemma_ids_into_contains(index.hasher(), index.k(), index.l(), rp, weights, t, i, index.size_spec() as int);
    let h = tables.history(t, b);
    assert(h.contains(i as u32));
    if h.len() <= BUCKET_SIZE {
        tables.lemma_bucket_wf(t, b);
        let bucket = tables.bucket_at(t, b);
        bucket.lemma_contents();
        bucket.lemma_wf_facts();
        let q = choose|q: int| 0 <= q < h.len() && h[q] == i as u32;
        assert(bucket.history()[q] == i as u32);
        assert(q % (BUCKET_SIZE as int) == q);
        assert(bucket.contents()[q] == i as u32);
    }
}

/// Rehashing is idempotent: two indexes rehashed from the same weights with the
/// same hasher hold the same ids in every bucket, so rehashing again changes
/// nothing.
pub proof fn lemma_rehash_idempotent(a: &LayerIndex, b: &LayerIndex, weights: Seq<Vec<u32>>)
    requires
        a.wf(),
        b.wf(),
        a.indexed_from(weights),
        b.indexed_from(weights),
        a.hasher() == b.hasher(),
        a.size_spec() == b.size_spec(),
        a.k() == b.k(),
        a.l() == b.l(),
        a.tables().range_pow() == b.tables().range_pow(),
    ensures
        forall|t: int, bk: int|
            0 <= t < a.l() && 0 <= bk < table_len(a.tables().range_pow()) ==> #[trigger] a.tables().history(t, bk)
                == b.tables().history(t, bk),
        forall|t: int, bk: int|
            0 <= t < a.l() && 0 <= bk < table_len(a.tables().range_pow()) ==> #[trigger] a.tables().contents(t, bk)
                == b.tables().contents(t, bk),
{
    assert forall|t: int, bk: int| 0 <= t < a.l() && 0 <= bk < table_len(a.tables().range_pow()) implies {
        &&& a.tables().history(t, bk) == b.tables().history(t, bk)
        &&& #[trigger] a.tables().contents(t, bk) == b.tables().contents(t, bk)
    } by {
        a.tables().lemma_bucket_wf(t, bk);
        b.tables().lemma_bucket_wf(t, bk);
        assert(a.tables().history(t, bk) == ids_into(a.hasher(), a.k(), a.l(), a.tables().range_pow(), weights, t, bk, a.size_spec() as int));
        assert(b.tables().history(t, bk) == ids_into(b.hasher(), b.k(), b.l(), b.tables().range_pow(), weights, t, bk, b.size_spec() as int));
        a.tables().bucket_at(t, bk).lemma_contents_determined(&b.tables().bucket_at(t, bk));
    }
}

} // verus!
