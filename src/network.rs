use vstd::prelude::*;

verus! {

/// Order key of `f32::NEG_INFINITY` (see `hasher::order_key`): an activation
/// must rise above it to be predicted.
pub const NEG_INFINITY_KEY: u32 = 0x007F_FFFF;

/// The predicted class of an output layer whose active neuron `ids[p]` has an
/// activation with order key `keys[p]`: the id at the first position of the
/// largest key, or 0 when no key lies above `NEG_INFINITY_KEY`.
pub fn top_class(keys: &[u32], ids: &[usize]) -> (r: usize)
    requires
        keys@.len() == ids@.len(),
    ensures
        (forall|j: int| 0 <= j < keys@.len() ==> #[trigger] keys@[j] <= NEG_INFINITY_KEY) ==> r == 0,
        (exists|j: int| 0 <= j < keys@.len() && #[trigger] keys@[j] > NEG_INFINITY_KEY) ==> exists|p: int|
            {
                &&& 0 <= p < keys@.len()
                &&& r == ids@[p]
                &&& keys@[p] > NEG_INFINITY_KEY
                &&& forall|j: int| 0 <= j < keys@.len() ==> #[trigger] keys@[j] <= keys@[p]
                &&& forall|j: int| 0 <= j < p ==> #[trigger] keys@[j] < keys@[p]
            },
{
    let mut best: u32 = NEG_INFINITY_KEY;
    let mut best_pos: usize = 0;
    let mut predict_class: usize = 0;
    let mut i: usize = 0;
    while i < keys.len()
        invariant
            i <= keys@.len(),
            keys@.len() == ids@.len(),
            best >= NEG_INFINITY_KEY,
            forall|j: int| 0 <= j < i ==> #[trigger] keys@[j] <= best,
            best == NEG_INFINITY_KEY ==> predict_class == 0,
            best > NEG_INFINITY_KEY ==> {
                &&& best_pos < i
                &&& keys@[best_pos as int] == best
                &&& predict_class == ids@[best_pos as int]
                &&& forall|j: int| 0 <= j < best_pos ==> #[trigger] keys@[j] < best
            },
        decreases keys@.len() - i,
    {
        if best < keys[i] {
            best = keys[i];
            best_pos = i;
            predict_class = ids[i];
        }
        i = i + 1;
    }
    proof {
        if exists|j: int| 0 <= j < keys@.len() && #[trigger] keys@[j] > NEG_INFINITY_KEY {
            assert(best > NEG_INFINITY_KEY);
            assert(forall|j: int| 0 <= j < keys@.len() ==> #[trigger] keys@[j] <= keys@[best_pos as int]);
        }
    }
    predict_class
}

} // verus!
