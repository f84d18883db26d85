use vstd::prelude::*;

verus! {

/// Every this many iterations the padding ids of the second layer are
/// reshuffled.
pub const RESHUFFLE_PERIOD: usize = 6946;

/// Iteration `iter` (counting from 0) is the last of a period of `period`
/// iterations.
pub open spec fn ends_period(iter: nat, period: nat) -> bool {
    iter % period == period - 1
}

/// Whether iteration `iter` is the last of a period of `period` iterations.
pub fn period_ends(iter: usize, period: usize) -> (r: bool)
    requires
        period > 0,
    ensures
        r == ends_period(iter as nat, period as nat),
{
    iter % period == period - 1
}

/// Whether the padding ids are reshuffled before training iteration `iter`.
pub fn reshuffle_due(iter: usize) -> (r: bool)
    ensures
        r == ends_period(iter as nat, RESHUFFLE_PERIOD as nat),
{
    period_ends(iter, RESHUFFLE_PERIOD)
}

/// The `(rehash, rebuild)` flags of training iteration `iter` for batches of
/// `batch_size` cases: a rehash closes every `case_per_rehash / batch_size`
/// iterations, a rebuild every `case_per_rebuild / batch_size`.
pub fn maintenance_flags(iter: usize, batch_size: usize, case_per_rehash: usize, case_per_rebuild: usize) -> (r: (
    bool,
    bool,
))
    requires
        0 < batch_size <= case_per_rehash,
        batch_size <= case_per_rebuild,
    ensures
        r.0 == ends_period(iter as nat, (case_per_rehash / batch_size) as nat),
        r.1 == ends_period(iter as nat, (case_per_rebuild / batch_size) as nat),
{
    proof {
        vstd::arithmetic::div_mod::lemma_div_is_ordered(batch_size as int, case_per_rehash as int, batch_size as int);
        vstd::arithmetic::div_mod::lemma_div_is_ordered(batch_size as int, case_per_rebuild as int, batch_size as int);
        vstd::arithmetic::div_mod::lemma_div_by_self(batch_size as int);
    }
    (period_ends(iter, case_per_rehash / batch_size), period_ends(iter, case_per_rebuild / batch_size))
}

} // verus!
