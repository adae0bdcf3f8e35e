use vstd::prelude::*;
use crate::registry::{Registry, lemma_owner_slot_unique, seq_has_slot, seq_slot_of, sum_counts};

verus! {

/// Index duality, forward direction: for every owner slot `oi` and every
/// position `p` below that owner's count, the kitty listed at `p` is owned
/// by that slot's account and its reverse index points back at `p`.
pub proof fn lemma_index_duality_forward(r: Registry, oi: int, p: int)
    requires
        r.wf(),
        0 <= oi < r.owned@.len(),
        0 <= p < r.owned@[oi].list@.len(),
    ensures
        (r.owned@[oi].list@[p] as int) < r.kitties@.len(),
        r.pos@[r.owned@[oi].list@[p] as int] as int == p,
        r.owner@[r.owned@[oi].list@[p] as int] == r.owned@[oi].account,
{
    assert(r.entry_ok(oi, p));
}

/// Index duality, backward direction: every minted kitty `h` appears in its
/// owner's array, exactly at the position its reverse index names.
pub proof fn lemma_index_duality_backward(r: Registry, h: int)
    requires
        r.wf(),
        0 <= h < r.kitties@.len(),
    ensures
        seq_has_slot(r.owned@, r.owner@[h]),
        (r.pos@[h] as int) < r.owned@[seq_slot_of(r.owned@, r.owner@[h])].list@.len(),
        r.owned@[seq_slot_of(r.owned@, r.owner@[h])].list@[r.pos@[h] as int] as int == h,
{
    assert(r.is_listed(h));
    let w = choose|w: int| r.listed_at(w, h);
    lemma_owner_slot_unique(r.owned@, w, r.owner@[h]);
}

/// Conservation: the counts of all owners sum to the global minted count,
/// in every well-formed registry state — and every operation of the
/// registry both requires and re-establishes well-formedness.
pub proof fn lemma_conservation(r: Registry)
    requires
        r.wf(),
    ensures
        sum_counts(r.owned@) == r.total_spec(),
{
}

} // verus!
