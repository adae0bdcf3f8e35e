use vstd::prelude::*;
use crate::dna::{splice, splice_dna};
use crate::events::{Error, Event};
use crate::events::{ev_bought, ev_created, ev_price_set, ev_transferred, events_extended};
use crate::hash256::Hash256;
use crate::identity::{next_id, next_id_spec};
use crate::registry::{Kitty, Registry, lemma_owner_slot_unique, lemma_kitty_slot_unique,
    lemma_sum_update, lemma_sum_bound_two, lemma_wf_same_core};
use crate::registry::{seq_kitty_slot, seq_owner_slot, seq_has_slot, seq_slot_of, seq_count_of, seq_handles, sum_counts};

verus! {

/// What a buyer owes before a purchase can settle: `amount` moves from
/// `buyer` to `seller` through the external balance ledger.
#[derive(Clone, Copy, PartialEq, Eq, Structural, Debug)]
pub struct Payment {
    pub buyer: u64,
    pub seller: u64,
    pub amount: u64,
}

impl Registry {
    /// The account that owns `id`; meaningful only when `id` is minted.
    pub open spec fn seller_of(self, id: Seq<u8>) -> u64 {
        self.owner@[self.index_of(id)]
    }

    /// Every check of a purchase: the kitty exists, the buyer does not
    /// already own it, it is for sale, and its price is within the ceiling.
    pub open spec fn buy_ok(self, sender: u64, id: Seq<u8>, max_price: u64) -> bool {
        &&& self.has_kitty(id)
        &&& self.owner_of_spec(id) != Some(sender)
        &&& self.price_of_spec(id) > 0
        &&& self.price_of_spec(id) <= max_price
    }

    /// Moves the kitty `id` from `from` to `to`: removes it from `from`'s
    /// dense array by moving the last entry into the vacated position,
    /// appends it to `to`'s array, and updates the ownership map and the
    /// reverse index — all applied together, or not at all.
    ///
    /// Fails with `NotFound` if `id` is unminted, `NotOwner` if `from` does
    /// not own it, `CounterOverflow` if `to`'s count is at its maximum, and
    /// `CounterUnderflow` if `from`'s count is zero — though the registry's
    /// invariant rules the last case out whenever `from` owns the kitty.
    #[verifier::rlimit(100)]
    pub fn transfer_from(&mut self, from: u64, to: u64, id: &Hash256) -> (r: Result<(), Error>)
        requires
            old(self).wf(),
        ensures
            final(self).wf(),
            match r {
                Ok(()) => {
                    &&& old(self).owner_of_spec(id@) == Some(from)
                    &&& old(self).count_of_spec(to) < u64::MAX || from == to
                    &&& final(self).owner_of_spec(id@) == Some(to)
                    &&& final(self).kitties == old(self).kitties
                    &&& final(self).nonce == old(self).nonce
                    &&& final(self).total_spec() == old(self).total_spec()
                    &&& (from != to ==> final(self).count_of_spec(from) == old(self).count_of_spec(
                        from) - 1)
                    &&& (from != to ==> final(self).count_of_spec(to) == old(self).count_of_spec(to)
                        + 1)
                    &&& (from == to ==> final(self).count_of_spec(from) == old(self).count_of_spec(
                        from))
                    &&& forall|a: u64| a != from && a != to ==> #[trigger] final(
                        self).count_of_spec(a) == old(self).count_of_spec(a)
                    &&& forall|a: u64| a != from && a != to ==> #[trigger] final(
                        self).owned_handles(a) == old(self).owned_handles(a)
                    &&& forall|id2: Seq<u8>| id2 != id@ ==> #[trigger] final(self).owner_of_spec(
                        id2) == old(self).owner_of_spec(id2)
                    &&& forall|id2: Seq<u8>| old(self).has_kitty(id2) ==> #[trigger] final(
                        self).index_of(id2) == old(self).index_of(id2)
                    &&& events_extended(old(self).events@, final(self).events@, 1)
                    &&& ev_transferred(final(self).events@.last(), from, to, id@)
                },
                Err(e) => {
                    &&& *final(self) == *old(self)
                    &&& (e == Error::NotFound <==> !old(self).has_kitty(id@))
                    &&& (e == Error::NotOwner <==> old(self).has_kitty(id@) && old(
                        self).owner_of_spec(id@) != Some(from))
                    &&& (e == Error::CounterOverflow <==> old(self).owner_of_spec(id@) == Some(from)
                        && old(self).count_of_spec(to) == u64::MAX && from != to)
                    &&& (e == Error::NotFound || e == Error::NotOwner || e == Error::CounterOverflow)
                },
            },
    {
        let g = match self.find_kitty(id) {
            None => { return Err(Error::NotFound); },
            Some(g) => g,
        };
        let owner_acct = self.owner[g];
        if owner_acct != from {
            return Err(Error::NotOwner);
        }
        if from != to {
            let count_to = self.owned_kitty_count(to);
            if count_to == u64::MAX {
                return Err(Error::CounterOverflow);
            }
        }
        let count_from = self.owned_kitty_count(from);
        proof {
            // `from` owns the kitty, so its array cannot be empty
            assert(self.is_listed(g as int));
            let w = choose|w: int| self.listed_at(w, g as int);
            lemma_owner_slot_unique(self.owned@, w, from);
            assert(count_from > 0);
        }
        if count_from == 0 {
            // kept defensively; the invariant shows this cannot fire
            return Err(Error::CounterUnderflow);
        }
        let oi_to = self.ensure_slot(to);
        let ghost s1 = *self;
        proof {
            // `from` still has a slot: its count is positive
            assert(seq_count_of(s1.owned@, from) == count_from as int);
            if !seq_has_slot(s1.owned@, from) {
                assert(seq_count_of(s1.owned@, from) == 0);
            }
        }
        let oi_from = match self.find_slot(from) {
            Some(oi) => oi,
            None => { return Err(Error::NotOwner); },
        };
        proof {
            assert(s1.is_listed(g as int));
            let w = choose|w: int| s1.listed_at(w, g as int);
            lemma_owner_slot_unique(s1.owned@, w, from);
            assert(w == oi_from as int);
        }
        let p = self.pos[g];
        let removed = self.owned[oi_from].list.swap_remove(p);
        proof {
            assert(removed == g);
        }
        let moved_any: bool = p < self.owned[oi_from].list.len();
        if moved_any {
            // the last entry moved into the vacated position: repoint its
            // reverse index
            let moved = self.owned[oi_from].list[p];
            proof {
                let m = s1.owned@[oi_from as int].list@.len() as int;
                assert(s1.owned@[oi_from as int].list@[m - 1] == moved);
                assert(s1.entry_ok(oi_from as int, m - 1));
            }
            self.pos[moved] = p;
        }
        self.owner[g] = to;
        let newp = self.owned[oi_to].list.len();
        self.pos[g] = newp;
        self.owned[oi_to].list.push(g);
        self.events.push(Event::Transferred { from, to, id: id.clone() });
        proof {
            let s0 = *old(self);
            let n = s1.kitties@.len() as int;
            let gi = g as int;
            let fi = oi_from as int;
            let ti = oi_to as int;
            let pl = p as int;
            let os1 = s1.owned@;
            let osf = self.owned@;
            let lst = os1[fi].list@;
            let m = lst.len() as int;
            let newl = lst.update(pl, lst.last()).drop_last();
            let ghost moved_h = lst[m - 1] as int;

            // ground facts about the starting position
            assert(lst[pl] as int == gi);
            assert(s1.entry_ok(fi, pl));
            assert(s1.entry_ok(fi, m - 1));
            assert(0 <= moved_h < n);
            assert(s1.owner@[moved_h] == from);
            assert(s1.pos@[moved_h] as int == m - 1);
            // distinct elements of a dense array: positions determine entries
            assert forall|q1: int, q2: int|
                0 <= q1 < m && 0 <= q2 < m && lst[q1] == lst[q2] implies q1 == q2 by {
                assert(s1.entry_ok(fi, q1));
                assert(s1.entry_ok(fi, q2));
            }

            // shape of the final state
            assert(self.kitties == s1.kitties);
            assert(self.owner@ =~= s1.owner@.update(gi, to));
            if fi != ti {
                assert(osf =~= os1.update(fi, osf[fi]).update(ti, osf[ti]));
                assert(osf[fi].list@ =~= newl);
                assert(osf[ti].list@ =~= os1[ti].list@.push(g));
                assert(osf[fi].account == from);
                assert(osf[ti].account == to);
            } else {
                assert(osf =~= os1.update(fi, osf[fi]));
                assert(osf[fi].list@ =~= newl.push(g));
                assert(osf[fi].account == to);
            }
            assert forall|i: int| 0 <= i < osf.len() implies osf[i].account == os1[i].account by {}
            if moved_any {
                assert(self.pos@ =~= s1.pos@.update(moved_h, p).update(gi, newp));
                assert(moved_h != gi);
            } else {
                assert(self.pos@ =~= s1.pos@.update(gi, newp));
                assert(pl == m - 1);
            }

            // the invariant is re-established
            assert forall|oi2: int, p2: int|
                #![trigger self.owned@[oi2].list@[p2]]
                0 <= oi2 < osf.len() && 0 <= p2 < osf[oi2].list@.len() implies self.entry_ok(
                oi2, p2) by {
                if oi2 == ti && p2 == osf[ti].list@.len() - 1 {
                    // the transferred kitty, at the end of `to`'s array
                    assert(osf[oi2].list@[p2] as int == gi);
                    assert(self.owner@[gi] == to);
                    assert(self.pos@[gi] as int == p2);
                } else if oi2 == fi && p2 == pl && moved_any {
                    // the entry moved into the vacated position
                    assert(osf[oi2].list@[p2] as int == moved_h);
                    assert(self.owner@[moved_h] == from);
                    assert(self.pos@[moved_h] as int == pl);
                } else {
                    // untouched entries: the old invariant carries over
                    assert(s1.entry_ok(oi2, p2));
                    let h = os1[oi2].list@[p2] as int;
                    assert(osf[oi2].list@[p2] == os1[oi2].list@[p2]);
                    assert(h != gi || (oi2 == fi && p2 == pl));
                    if oi2 == fi {
                        assert(p2 != m - 1);
                        assert(h != moved_h);
                    } else {
                        assert(os1[oi2].account != from);
                        assert(h != moved_h && h != gi);
                    }
                    assert(self.owner@[h] == os1[oi2].account);
                    assert(self.pos@[h] == s1.pos@[h]);
                }
            }
            assert forall|h: int| 0 <= h < self.kitties@.len() implies #[trigger] self.is_listed(
                h) by {
                if h == gi {
                    assert(self.listed_at(ti, h));
                } else if moved_any && h == moved_h {
                    assert(self.listed_at(fi, h));
                } else {
                    assert(s1.is_listed(h));
                    let w = choose|w: int| s1.listed_at(w, h);
                    let q = s1.pos@[h] as int;
                    assert(seq_owner_slot(os1, w, s1.owner@[h]));
                    if w == fi {
                        assert(s1.entry_ok(fi, q));
                        assert(q != pl && q != m - 1);
                        assert(osf[fi].list@[q] == os1[fi].list@[q]);
                        assert(self.listed_at(w, h));
                    } else if w == ti {
                        assert(osf[ti].list@[q] == os1[ti].list@[q]);
                        assert(self.listed_at(w, h));
                    } else {
                        assert(osf[w].list@ == os1[w].list@);
                        assert(self.listed_at(w, h));
                    }
                }
            }
            if fi != ti {
                lemma_sum_update(os1, fi, os1.update(fi, osf[fi])[fi]);
                lemma_sum_update(os1.update(fi, osf[fi]), ti, osf[ti]);
                assert(sum_counts(osf) == sum_counts(os1));
            } else {
                lemma_sum_update(os1, fi, osf[fi]);
                assert(sum_counts(osf) == sum_counts(os1));
            }
            assert(self.wf());

            // ownership of `id` and preservation for all other identifiers
            lemma_kitty_slot_unique(self.kitties@, gi, id@);
            assert(self.owner_of_spec(id@) == Some(to));
            assert forall|id2: Seq<u8>| id2 != id@ implies #[trigger] self.owner_of_spec(id2) == s0
                .owner_of_spec(id2) by {
                if s0.has_kitty(id2) {
                    let k = s0.index_of(id2);
                    assert(seq_kitty_slot(s0.kitties@, k, id2));
                    assert(seq_kitty_slot(self.kitties@, k, id2));
                    lemma_kitty_slot_unique(self.kitties@, k, id2);
                    lemma_kitty_slot_unique(s0.kitties@, k, id2);
                    assert(k != gi);
                    assert(self.owner@[k] == s0.owner@[k]);
                } else {
                    if self.has_kitty(id2) {
                        let k = self.index_of(id2);
                        assert(seq_kitty_slot(self.kitties@, k, id2));
                        assert(seq_kitty_slot(s0.kitties@, k, id2));
                    }
                }
            }
            assert forall|id2: Seq<u8>| s0.has_kitty(id2) implies #[trigger] self.index_of(id2)
                == s0.index_of(id2) by {
                let k = s0.index_of(id2);
                assert(seq_kitty_slot(s0.kitties@, k, id2));
                assert(seq_kitty_slot(self.kitties@, k, id2));
                lemma_kitty_slot_unique(self.kitties@, k, id2);
                lemma_kitty_slot_unique(s0.kitties@, k, id2);
            }

            // counts: `from` lost one entry, `to` gained one
            lemma_owner_slot_unique(osf, fi, os1[fi].account);
            lemma_owner_slot_unique(osf, ti, to);
            lemma_owner_slot_unique(os1, fi, from);
            lemma_owner_slot_unique(os1, ti, os1[ti].account);
            if fi != ti {
                assert(seq_count_of(osf, from) == seq_count_of(os1, from) - 1);
                assert(seq_count_of(osf, to) == seq_count_of(os1, to) + 1);
            } else {
                assert(seq_count_of(osf, from) == seq_count_of(os1, from));
            }
            assert forall|a: u64| a != from && a != to implies #[trigger] seq_count_of(osf, a)
                == seq_count_of(s0.owned@, a) by {
                assert(seq_count_of(os1, a) == seq_count_of(s0.owned@, a));
                if seq_has_slot(os1, a) {
                    let w = seq_slot_of(os1, a);
                    assert(seq_owner_slot(os1, w, a));
                    assert(w != fi && w != ti);
                    assert(seq_owner_slot(osf, w, a));
                    lemma_owner_slot_unique(osf, w, a);
                    lemma_owner_slot_unique(os1, w, a);
                    assert(osf[w] == os1[w]);
                } else {
                    if seq_has_slot(osf, a) {
                        let w = seq_slot_of(osf, a);
                        assert(seq_owner_slot(osf, w, a));
                        assert(seq_owner_slot(os1, w, a));
                    }
                }
            }
            assert forall|a: u64| a != from && a != to implies #[trigger] seq_handles(osf, a)
                == seq_handles(s0.owned@, a) by {
                assert(seq_handles(os1, a) == seq_handles(s0.owned@, a));
                if seq_has_slot(os1, a) {
                    let w = seq_slot_of(os1, a);
                    assert(seq_owner_slot(os1, w, a));
                    assert(w != fi && w != ti);
                    assert(seq_owner_slot(osf, w, a));
                    lemma_owner_slot_unique(osf, w, a);
                    lemma_owner_slot_unique(os1, w, a);
                    assert(osf[w] == os1[w]);
                } else {
                    if seq_has_slot(osf, a) {
                        let w = seq_slot_of(osf, a);
                        assert(seq_owner_slot(osf, w, a));
                        assert(seq_owner_slot(os1, w, a));
                    }
                }
            }
            // counts seen from the entry state
            assert(seq_count_of(os1, from) == seq_count_of(s0.owned@, from));
            assert(seq_count_of(os1, to) == seq_count_of(s0.owned@, to));
            assert(self.events@ =~= s0.events@.push(self.events@.last()));
        }
        Ok(())
    }

    /// Overwrites the price of the kitty at global index `g`, touching
    /// nothing else.
    fn write_price(&mut self, g: usize, new_price: u64)
        requires
            old(self).wf(),
            g < old(self).kitties@.len(),
        ensures
            final(self).wf(),
            final(self).kitties@.len() == old(self).kitties@.len(),
            final(self).kitties@[g as int].price == new_price,
            final(self).kitties@[g as int].id@ == old(self).kitties@[g as int].id@,
            final(self).kitties@[g as int].dna@ == old(self).kitties@[g as int].dna@,
            final(self).kitties@[g as int].gen == old(self).kitties@[g as int].gen,
            forall|k: int|
                0 <= k < old(self).kitties@.len() && k != g ==> final(self).kitties@[k] == old(
                self).kitties@[k],
            final(self).owner == old(self).owner,
            final(self).pos == old(self).pos,
            final(self).owned == old(self).owned,
            final(self).nonce == old(self).nonce,
            final(self).events == old(self).events,
            forall|id2: Seq<u8>| #[trigger] final(self).has_kitty(id2) == old(self).has_kitty(id2),
            forall|id2: Seq<u8>| old(self).has_kitty(id2) ==> #[trigger] final(self).index_of(id2)
                == old(self).index_of(id2),
            forall|id2: Seq<u8>| #[trigger] final(self).owner_of_spec(id2) == old(
                self).owner_of_spec(id2),
            forall|a: u64| #[trigger] final(self).count_of_spec(a) == old(self).count_of_spec(a),
            forall|a: u64| #[trigger] final(self).owned_handles(a) == old(self).owned_handles(a),
    {
        self.kitties[g].price = new_price;
        proof {
            let s0 = *old(self);
            let ks0 = s0.kitties@;
            let ksf = self.kitties@;
            let gi = g as int;
            assert(ksf =~= ks0.update(gi, ksf[gi]));
            assert forall|k: int| 0 <= k < ksf.len() implies (#[trigger] ksf[k]).id@ == ks0[
                k].id@ by {}
            assert forall|i: int, j: int|
                #![trigger ksf[i].id@, ksf[j].id@]
                0 <= i < j < ksf.len() implies ksf[i].id@ != ksf[j].id@ by {
                assert(ks0[i].id@ != ks0[j].id@);
            }
            assert forall|k: int| 0 <= k < ksf.len() implies (#[trigger] ksf[k]).wf() by {
                assert(ks0[k].wf());
            }
            assert forall|oi2: int, p2: int|
                #![trigger self.owned@[oi2].list@[p2]]
                0 <= oi2 < self.owned@.len() && 0 <= p2 < self.owned@[oi2].list@.len() implies self
                .entry_ok(oi2, p2) by {
                assert(s0.entry_ok(oi2, p2));
            }
            assert forall|h: int| 0 <= h < ksf.len() implies #[trigger] self.is_listed(h) by {
                assert(s0.is_listed(h));
                let w = choose|w: int| s0.listed_at(w, h);
                assert(self.listed_at(w, h));
            }
            assert(self.wf());
            assert forall|id2: Seq<u8>| #[trigger] self.has_kitty(id2) == s0.has_kitty(id2) by {
                if s0.has_kitty(id2) {
                    let k = s0.index_of(id2);
                    assert(seq_kitty_slot(ks0, k, id2));
                    assert(seq_kitty_slot(ksf, k, id2));
                } else if self.has_kitty(id2) {
                    let k = self.index_of(id2);
                    assert(seq_kitty_slot(ksf, k, id2));
                    assert(seq_kitty_slot(ks0, k, id2));
                }
            }
            assert forall|id2: Seq<u8>| s0.has_kitty(id2) implies #[trigger] self.index_of(id2)
                == s0.index_of(id2) by {
                let k = s0.index_of(id2);
                assert(seq_kitty_slot(ks0, k, id2));
                assert(seq_kitty_slot(ksf, k, id2));
                lemma_kitty_slot_unique(ksf, k, id2);
                lemma_kitty_slot_unique(ks0, k, id2);
            }
            assert forall|id2: Seq<u8>| #[trigger] self.owner_of_spec(id2) == s0.owner_of_spec(
                id2) by {
                assert(self.has_kitty(id2) == s0.has_kitty(id2));
                if s0.has_kitty(id2) {
                    assert(self.index_of(id2) == s0.index_of(id2));
                }
            }
        }
    }

    /// Sets the sale price of `id` (zero withdraws it from sale).
    ///
    /// Fails with `NotFound` if `id` is unminted and `NotOwner` if `sender`
    /// does not own it; a failure leaves the registry unchanged. On success
    /// only the price changes, and a `PriceSet` event is recorded.
    pub fn set_price(&mut self, sender: u64, id: &Hash256, new_price: u64) -> (r: Result<
        (),
        Error,
    >)
        requires
            old(self).wf(),
        ensures
            final(self).wf(),
            match r {
                Ok(()) => {
                    &&& old(self).has_kitty(id@)
                    &&& old(self).owner_of_spec(id@) == Some(sender)
                    &&& final(self).price_of_spec(id@) == new_price
                    &&& final(self).dna_of_spec(id@) == old(self).dna_of_spec(id@)
                    &&& final(self).gen_of_spec(id@) == old(self).gen_of_spec(id@)
                    &&& final(self).total_spec() == old(self).total_spec()
                    &&& final(self).nonce == old(self).nonce
                    &&& forall|id2: Seq<u8>| #[trigger] final(self).has_kitty(id2) == old(
                        self).has_kitty(id2)
                    &&& forall|id2: Seq<u8>| #[trigger] final(self).owner_of_spec(id2) == old(
                        self).owner_of_spec(id2)
                    &&& forall|id2: Seq<u8>|
                        id2 != id@ && old(self).has_kitty(id2) ==> #[trigger] final(
                        self).price_of_spec(id2) == old(self).price_of_spec(id2)
                    &&& forall|a: u64| #[trigger] final(self).count_of_spec(a) == old(
                        self).count_of_spec(a)
                    &&& forall|a: u64| #[trigger] final(self).owned_handles(a) == old(
                        self).owned_handles(a)
                    &&& events_extended(old(self).events@, final(self).events@, 1)
                    &&& ev_price_set(final(self).events@.last(), sender, id@, new_price)
                },
                Err(e) => {
                    &&& *final(self) == *old(self)
                    &&& (e == Error::NotFound <==> !old(self).has_kitty(id@))
                    &&& (e == Error::NotOwner <==> old(self).has_kitty(id@) && old(
                        self).owner_of_spec(id@) != Some(sender))
                    &&& (e == Error::NotFound || e == Error::NotOwner)
                },
            },
    {
        let g = match self.find_kitty(id) {
            None => { return Err(Error::NotFound); },
            Some(g) => g,
        };
        if self.owner[g] != sender {
            return Err(Error::NotOwner);
        }
        let ghost s0 = *self;
        self.write_price(g, new_price);
        let ghost s1 = *self;
        self.events.push(Event::PriceSet { owner: sender, id: id.clone(), price: new_price });
        proof {
            lemma_wf_same_core(s1, *self);
            assert(s0.has_kitty(id@));
            assert(s1.index_of(id@) == g as int);
            assert(self.index_of(id@) == g as int);
            assert(self.price_of_spec(id@) == new_price);
            assert forall|id2: Seq<u8>|
                id2 != id@ && s0.has_kitty(id2) implies #[trigger] self.price_of_spec(id2) == s0
                .price_of_spec(id2) by {
                let k = s0.index_of(id2);
                assert(seq_kitty_slot(s0.kitties@, k, id2));
                assert(k != g as int);
                assert(s1.index_of(id2) == k);
                assert(self.index_of(id2) == k);
                assert(s1.kitties@[k] == s0.kitties@[k]);
            }
            assert forall|id2: Seq<u8>| #[trigger] self.has_kitty(id2) == s0.has_kitty(id2) by {
                assert(s1.has_kitty(id2) == s0.has_kitty(id2));
            }
            assert forall|id2: Seq<u8>| #[trigger] self.owner_of_spec(id2) == s0.owner_of_spec(
                id2) by {
                assert(s1.owner_of_spec(id2) == s0.owner_of_spec(id2));
            }
            assert forall|a: u64| #[trigger] self.count_of_spec(a) == s0.count_of_spec(a) by {
                assert(s1.count_of_spec(a) == s0.count_of_spec(a));
            }
            assert forall|a: u64| #[trigger] self.owned_handles(a) == s0.owned_handles(a) by {
                assert(s1.owned_handles(a) == s0.owned_handles(a));
            }
            assert(self.events@ =~= s0.events@.push(self.events@.last()));
        }
        Ok(())
    }

    /// The caller-facing transfer: `sender` gives the kitty `id` to `to`.
    ///
    /// Fails with `NotOwner` if `sender` is not the current owner — which
    /// also covers an unminted `id`, since no kitty lacks an owner — and
    /// with `CounterOverflow` if `to`'s count is at its maximum.
    pub fn transfer(&mut self, sender: u64, to: u64, id: &Hash256) -> (r: Result<(), Error>)
        requires
            old(self).wf(),
        ensures
            final(self).wf(),
            match r {
                Ok(()) => {
                    &&& old(self).owner_of_spec(id@) == Some(sender)
                    &&& final(self).owner_of_spec(id@) == Some(to)
                    &&& final(self).kitties == old(self).kitties
                    &&& final(self).nonce == old(self).nonce
                    &&& final(self).total_spec() == old(self).total_spec()
                    &&& (sender != to ==> final(self).count_of_spec(sender) == old(
                        self).count_of_spec(sender) - 1)
                    &&& (sender != to ==> final(self).count_of_spec(to) == old(self).count_of_spec(
                        to) + 1)
                    &&& (sender == to ==> final(self).count_of_spec(sender) == old(
                        self).count_of_spec(sender))
                    &&& forall|a: u64| a != sender && a != to ==> #[trigger] final(
                        self).count_of_spec(a) == old(self).count_of_spec(a)
                    &&& forall|a: u64| a != sender && a != to ==> #[trigger] final(
                        self).owned_handles(a) == old(self).owned_handles(a)
                    &&& forall|id2: Seq<u8>| id2 != id@ ==> #[trigger] final(self).owner_of_spec(
                        id2) == old(self).owner_of_spec(id2)
                    &&& events_extended(old(self).events@, final(self).events@, 1)
                    &&& ev_transferred(final(self).events@.last(), sender, to, id@)
                },
                Err(e) => {
                    &&& *final(self) == *old(self)
                    &&& (e == Error::NotOwner <==> old(self).owner_of_spec(id@) != Some(sender))
                    &&& (e == Error::CounterOverflow <==> old(self).owner_of_spec(id@) == Some(
                        sender) && old(self).count_of_spec(to) == u64::MAX && sender != to)
                    &&& (e == Error::NotOwner || e == Error::CounterOverflow)
                },
            },
    {
        match self.owner_of(id) {
            None => { return Err(Error::NotOwner); },
            Some(o) => {
                if o != sender {
                    return Err(Error::NotOwner);
                }
            },
        }
        self.transfer_from(sender, to, id)
    }

    /// Creates a brand-new kitty for `sender`: derives a fresh identifier
    /// from the externally supplied randomness `seed`, the caller and the
    /// nonce; the genetic code equals the identifier, the price is zero and
    /// the generation is zero. Increments the nonce on success.
    pub fn create_kitty(&mut self, sender: u64, seed: &Hash256) -> (r: Result<Hash256, Error>)
        requires
            old(self).wf(),
            seed.wf(),
        ensures
            final(self).wf(),
            match r {
                Ok(new_id) => {
                    &&& new_id@ == next_id_spec(seed@, sender, old(self).nonce)
                    &&& new_id.wf()
                    &&& !old(self).has_kitty(new_id@)
                    &&& final(self).owner_of_spec(new_id@) == Some(sender)
                    &&& final(self).price_of_spec(new_id@) == 0
                    &&& final(self).gen_of_spec(new_id@) == 0
                    &&& final(self).dna_of_spec(new_id@) == new_id@
                    &&& final(self).total_spec() == old(self).total_spec() + 1
                    &&& final(self).count_of_spec(sender) == old(self).count_of_spec(sender) + 1
                    &&& forall|a: u64| a != sender ==> #[trigger] final(self).count_of_spec(a)
                        == old(self).count_of_spec(a)
                    &&& forall|id2: Seq<u8>| id2 != new_id@ ==> #[trigger] final(
                        self).owner_of_spec(id2) == old(self).owner_of_spec(id2)
                    &&& final(self).nonce == old(self).nonce + 1
                    &&& events_extended(old(self).events@, final(self).events@, 1)
                    &&& ev_created(final(self).events@.last(), sender, new_id@)
                },
                Err(e) => {
                    &&& *final(self) == *old(self)
                    &&& (e == Error::AlreadyExists <==> old(self).has_kitty(
                        next_id_spec(seed@, sender, old(self).nonce)))
                    &&& (e == Error::CounterOverflow <==> !old(self).has_kitty(
                        next_id_spec(seed@, sender, old(self).nonce)) && (old(self).count_of_spec(
                        sender) == u64::MAX || old(self).total_spec() == u64::MAX))
                    &&& (e == Error::AlreadyExists || e == Error::CounterOverflow)
                },
            },
    {
        let nonce = self.nonce;
        let new_id = next_id(seed, sender, nonce);
        let kitty = Kitty { id: new_id.clone(), dna: new_id.clone(), price: 0, gen: 0 };
        match self.mint(sender, kitty) {
            Err(e) => { return Err(e); },
            Ok(()) => {},
        }
        proof {
            assert(self.nonce < u64::MAX);
        }
        let ghost s1 = *self;
        self.nonce = self.nonce + 1;
        proof {
            lemma_wf_same_core(s1, *self);
            assert forall|a: u64| a != sender implies #[trigger] self.count_of_spec(a) == old(
                self).count_of_spec(a) by {
                assert(s1.count_of_spec(a) == old(self).count_of_spec(a));
                assert(self.count_of_spec(a) == s1.count_of_spec(a));
            }
            assert forall|id2: Seq<u8>| id2 != new_id@ implies #[trigger] self.owner_of_spec(id2)
                == old(self).owner_of_spec(id2) by {
                assert(s1.owner_of_spec(id2) == old(self).owner_of_spec(id2));
                assert(self.has_kitty(id2) == s1.has_kitty(id2));
                assert(self.owner_of_spec(id2) == s1.owner_of_spec(id2));
            }
        }
        Ok(new_id)
    }

    /// Breeds a child kitty for `sender` from two minted parents. A fresh
    /// identifier is drawn as in `create_kitty`; the child's genetic code
    /// splices the parents' codes under that draw, and its generation is one
    /// more than the elder parent's. Increments the nonce on success.
    ///
    /// Fails with `NotFound` if either parent is unminted, and with
    /// `CounterOverflow` if the elder parent's generation is at its maximum,
    /// besides the mint failure modes.
    pub fn breed_kitty(&mut self, sender: u64, seed: &Hash256, id1: &Hash256, id2: &Hash256) -> (r:
        Result<Hash256, Error>)
        requires
            old(self).wf(),
            seed.wf(),
        ensures
            final(self).wf(),
            match r {
                Ok(new_id) => {
                    &&& old(self).has_kitty(id1@)
                    &&& old(self).has_kitty(id2@)
                    &&& new_id@ == next_id_spec(seed@, sender, old(self).nonce)
                    &&& new_id.wf()
                    &&& !old(self).has_kitty(new_id@)
                    &&& final(self).owner_of_spec(new_id@) == Some(sender)
                    &&& final(self).price_of_spec(new_id@) == 0
                    &&& final(self).dna_of_spec(new_id@) == splice(
                        old(self).dna_of_spec(id1@), old(self).dna_of_spec(id2@), new_id@)
                    &&& final(self).gen_of_spec(new_id@) == (if old(self).gen_of_spec(id1@) >= old(
                        self).gen_of_spec(id2@) {
                        old(self).gen_of_spec(id1@)
                    } else {
                        old(self).gen_of_spec(id2@)
                    }) + 1
                    &&& final(self).total_spec() == old(self).total_spec() + 1
                    &&& final(self).count_of_spec(sender) == old(self).count_of_spec(sender) + 1
                    &&& forall|a: u64| a != sender ==> #[trigger] final(self).count_of_spec(a)
                        == old(self).count_of_spec(a)
                    &&& forall|id2x: Seq<u8>| id2x != new_id@ ==> #[trigger] final(
                        self).owner_of_spec(id2x) == old(self).owner_of_spec(id2x)
                    &&& final(self).nonce == old(self).nonce + 1
                    &&& events_extended(old(self).events@, final(self).events@, 1)
                    &&& ev_created(final(self).events@.last(), sender, new_id@)
                },
                Err(e) => {
                    &&& *final(self) == *old(self)
                    &&& (e == Error::NotFound <==> !old(self).has_kitty(id1@) || !old(
                        self).has_kitty(id2@))
                    &&& (e == Error::AlreadyExists <==> old(self).has_kitty(id1@) && old(
                        self).has_kitty(id2@) && old(self).max_gen(id1@, id2@) < u64::MAX && old(
                        self).has_kitty(next_id_spec(seed@, sender, old(self).nonce)))
                    &&& (e == Error::CounterOverflow <==> old(self).has_kitty(id1@) && old(
                        self).has_kitty(id2@) && (old(self).max_gen(id1@, id2@) == u64::MAX || (
                    !old(self).has_kitty(next_id_spec(seed@, sender, old(self).nonce)) && (old(
                        self).count_of_spec(sender) == u64::MAX || old(self).total_spec()
                        == u64::MAX))))
                    &&& (e == Error::NotFound || e == Error::AlreadyExists || e
                        == Error::CounterOverflow)
                },
            },
    {
        let g1 = match self.find_kitty(id1) {
            None => { return Err(Error::NotFound); },
            Some(g) => g,
        };
        let g2 = match self.find_kitty(id2) {
            None => { return Err(Error::NotFound); },
            Some(g) => g,
        };
        let gen1 = self.kitties[g1].gen;
        let gen2 = self.kitties[g2].gen;
        let elder = if gen1 >= gen2 {
            gen1
        } else {
            gen2
        };
        if elder == u64::MAX {
            return Err(Error::CounterOverflow);
        }
        let nonce = self.nonce;
        let draw = next_id(seed, sender, nonce);
        let dna1 = self.kitties[g1].dna.clone();
        let dna2 = self.kitties[g2].dna.clone();
        let child_dna = splice_dna(&dna1, &dna2, &draw);
        let kitty = Kitty { id: draw.clone(), dna: child_dna, price: 0, gen: elder + 1 };
        match self.mint(sender, kitty) {
            Err(e) => { return Err(e); },
            Ok(()) => {},
        }
        proof {
            assert(self.nonce < u64::MAX);
        }
        let ghost s1 = *self;
        self.nonce = self.nonce + 1;
        proof {
            lemma_wf_same_core(s1, *self);
            assert forall|a: u64| a != sender implies #[trigger] self.count_of_spec(a) == old(
                self).count_of_spec(a) by {
                assert(s1.count_of_spec(a) == old(self).count_of_spec(a));
                assert(self.count_of_spec(a) == s1.count_of_spec(a));
            }
            assert forall|id2x: Seq<u8>| id2x != draw@ implies #[trigger] self.owner_of_spec(id2x)
                == old(self).owner_of_spec(id2x) by {
                assert(s1.owner_of_spec(id2x) == old(self).owner_of_spec(id2x));
                assert(self.has_kitty(id2x) == s1.has_kitty(id2x));
                assert(self.owner_of_spec(id2x) == s1.owner_of_spec(id2x));
            }
        }
        Ok(draw)
    }

    /// The maximum of the two parents' generations.
    pub open spec fn max_gen(self, id1: Seq<u8>, id2: Seq<u8>) -> u64 {
        if self.gen_of_spec(id1) >= self.gen_of_spec(id2) {
            self.gen_of_spec(id1)
        } else {
            self.gen_of_spec(id2)
        }
    }

    /// Checks a purchase and quotes the payment owed, changing nothing: the
    /// caller is expected to run the quoted payment through the balance
    /// ledger and then settle with `buy_kitty`.
    ///
    /// Fails with `NotFound` if `id` is unminted, `SelfTrade` if `sender`
    /// already owns it, `NotForSale` if its price is zero, and
    /// `PriceTooHigh` if its price exceeds `max_price`.
    pub fn buy_prepare(&self, sender: u64, id: &Hash256, max_price: u64) -> (r: Result<
        Payment,
        Error,
    >)
        requires
            self.wf(),
        ensures
            match r {
                Ok(pay) => {
                    &&& self.buy_ok(sender, id@, max_price)
                    &&& pay.buyer == sender
                    &&& pay.seller == self.seller_of(id@)
                    &&& pay.seller != sender
                    &&& pay.amount == self.price_of_spec(id@)
                    &&& 0 < pay.amount <= max_price
                },
                Err(e) => {
                    &&& (e == Error::NotFound <==> !self.has_kitty(id@))
                    &&& (e == Error::SelfTrade <==> self.has_kitty(id@) && self.owner_of_spec(id@)
                        == Some(sender))
                    &&& (e == Error::NotForSale <==> self.has_kitty(id@) && self.owner_of_spec(id@)
                        != Some(sender) && self.price_of_spec(id@) == 0)
                    &&& (e == Error::PriceTooHigh <==> self.has_kitty(id@) && self.owner_of_spec(
                        id@) != Some(sender) && self.price_of_spec(id@) > 0 && self.price_of_spec(
                        id@) > max_price)
                    &&& (e == Error::NotFound || e == Error::SelfTrade || e == Error::NotForSale
                        || e == Error::PriceTooHigh)
                },
            },
    {
        let g = match self.find_kitty(id) {
            None => { return Err(Error::NotFound); },
            Some(g) => g,
        };
        let owner_acct = self.owner[g];
        if owner_acct == sender {
            return Err(Error::SelfTrade);
        }
        let price = self.kitties[g].price;
        if price == 0 {
            return Err(Error::NotForSale);
        }
        if price > max_price {
            return Err(Error::PriceTooHigh);
        }
        Ok(Payment { buyer: sender, seller: owner_acct, amount: price })
    }

    /// Settles a purchase: re-checks everything `buy_prepare` checks, then
    /// consults `paid` — the outcome of the balance-ledger transfer the
    /// caller ran for the quoted payment. If the ledger declined, nothing
    /// changes and the result is `PaymentFailed`; otherwise ownership moves
    /// to the buyer, the price resets to zero, and `Transferred` and
    /// `Bought` events are recorded.
    pub fn buy_kitty(&mut self, sender: u64, id: &Hash256, max_price: u64, paid: bool) -> (r:
        Result<(), Error>)
        requires
            old(self).wf(),
        ensures
            final(self).wf(),
            match r {
                Ok(()) => {
                    &&& paid
                    &&& old(self).buy_ok(sender, id@, max_price)
                    &&& final(self).owner_of_spec(id@) == Some(sender)
                    &&& final(self).price_of_spec(id@) == 0
                    &&& final(self).dna_of_spec(id@) == old(self).dna_of_spec(id@)
                    &&& final(self).gen_of_spec(id@) == old(self).gen_of_spec(id@)
                    &&& final(self).total_spec() == old(self).total_spec()
                    &&& final(self).nonce == old(self).nonce
                    &&& final(self).count_of_spec(old(self).seller_of(id@)) == old(
                        self).count_of_spec(old(self).seller_of(id@)) - 1
                    &&& final(self).count_of_spec(sender) == old(self).count_of_spec(sender) + 1
                    &&& forall|a: u64|
                        a != sender && a != old(self).seller_of(id@) ==> #[trigger] final(
                        self).count_of_spec(a) == old(self).count_of_spec(a)
                    &&& forall|id2: Seq<u8>| id2 != id@ ==> #[trigger] final(self).owner_of_spec(
                        id2) == old(self).owner_of_spec(id2)
                    &&& forall|id2: Seq<u8>|
                        id2 != id@ && old(self).has_kitty(id2) ==> #[trigger] final(
                        self).price_of_spec(id2) == old(self).price_of_spec(id2)
                    &&& events_extended(old(self).events@, final(self).events@, 2)
                    &&& ev_transferred(final(self).events@[final(self).events@.len() - 2], old(
                        self).seller_of(id@), sender, id@)
                    &&& ev_bought(final(self).events@.last(), sender, old(self).seller_of(id@),
                        id@, old(self).price_of_spec(id@))
                },
                Err(e) => {
                    &&& *final(self) == *old(self)
                    &&& (e == Error::NotFound <==> !old(self).has_kitty(id@))
                    &&& (e == Error::SelfTrade <==> old(self).has_kitty(id@) && old(
                        self).owner_of_spec(id@) == Some(sender))
                    &&& (e == Error::NotForSale <==> old(self).has_kitty(id@) && old(
                        self).owner_of_spec(id@) != Some(sender) && old(self).price_of_spec(id@)
                        == 0)
                    &&& (e == Error::PriceTooHigh <==> old(self).has_kitty(id@) && old(
                        self).owner_of_spec(id@) != Some(sender) && old(self).price_of_spec(id@)
                        > 0 && old(self).price_of_spec(id@) > max_price)
                    &&& (e == Error::PaymentFailed <==> old(self).buy_ok(sender, id@, max_price)
                        && !paid)
                    &&& (e == Error::NotFound || e == Error::SelfTrade || e == Error::NotForSale
                        || e == Error::PriceTooHigh || e == Error::PaymentFailed)
                },
            },
    {
        let pay = match self.buy_prepare(sender, id, max_price) {
            Err(e) => { return Err(e); },
            Ok(p) => p,
        };
        if !paid {
            return Err(Error::PaymentFailed);
        }
        let seller = pay.seller;
        let ghost s0 = *old(self);
        let total = self.all_kitties_count();
        proof {
            // the buyer's count is strictly below the total, so the
            // ownership transfer cannot overflow it
            let gi = self.index_of(id@);
            assert(seq_kitty_slot(self.kitties@, gi, id@));
            assert(self.is_listed(gi));
            let w = choose|w: int| self.listed_at(w, gi);
            assert(self.owner@[gi] == seller);
            assert(seq_owner_slot(self.owned@, w, seller));
            lemma_owner_slot_unique(self.owned@, w, seller);
            assert(self.owned@[w].list@.len() >= 1);
            if seq_has_slot(self.owned@, sender) {
                let ws = seq_slot_of(self.owned@, sender);
                assert(seq_owner_slot(self.owned@, ws, sender));
                assert(ws != w);
                if ws < w {
                    lemma_sum_bound_two(self.owned@, ws, w);
                } else {
                    lemma_sum_bound_two(self.owned@, w, ws);
                }
                assert(sum_counts(self.owned@) == self.kitties@.len());
                assert(self.kitties@.len() == total);
                assert(self.count_of_spec(sender) == self.owned@[ws].list@.len());
                assert(self.count_of_spec(sender) < u64::MAX);
            } else {
                assert(self.count_of_spec(sender) == 0);
            }
        }
        let tr = self.transfer_from(seller, sender, id);
        match tr {
            Err(_) => {
                proof {
                    assert(false);
                }
                return Err(Error::PaymentFailed);
            },
            Ok(()) => {},
        }
        let ghost s2 = *self;
        let g = match self.find_kitty(id) {
            None => {
                proof {
                    assert(false);
                }
                return Err(Error::NotFound);
            },
            Some(g) => g,
        };
        self.write_price(g, 0);
        let ghost s3 = *self;
        self.events.push(
            Event::Bought { buyer: sender, seller, id: id.clone(), price: pay.amount },
        );
        proof {
            lemma_wf_same_core(s3, *self);
            assert(s2.kitties@ == s0.kitties@);
            // indices are stable through the whole settlement
            assert(seq_kitty_slot(s2.kitties@, s0.index_of(id@), id@));
            assert(g as int == s0.index_of(id@));
            assert(s3.index_of(id@) == g as int);
            assert(self.index_of(id@) == g as int);
            assert(self.price_of_spec(id@) == 0);
            assert(self.dna_of_spec(id@) == s0.dna_of_spec(id@));
            assert(self.gen_of_spec(id@) == s0.gen_of_spec(id@));
            // prices of all other kitties are untouched
            assert forall|id2: Seq<u8>|
                id2 != id@ && s0.has_kitty(id2) implies #[trigger] self.price_of_spec(id2) == s0
                .price_of_spec(id2) by {
                let k = s0.index_of(id2);
                assert(seq_kitty_slot(s0.kitties@, k, id2));
                assert(seq_kitty_slot(s2.kitties@, k, id2));
                lemma_kitty_slot_unique(s2.kitties@, k, id2);
                assert(k != g as int);
                assert(s3.index_of(id2) == k);
                assert(self.index_of(id2) == k);
                assert(s3.kitties@[k] == s2.kitties@[k]);
            }
            // ownership seen from the entry state
            assert(s2.owner_of_spec(id@) == Some(sender));
            assert(s3.owner_of_spec(id@) == s2.owner_of_spec(id@));
            assert(self.owner_of_spec(id@) == Some(sender));
            assert forall|id2: Seq<u8>| id2 != id@ implies #[trigger] self.owner_of_spec(id2) == s0
                .owner_of_spec(id2) by {
                assert(s2.owner_of_spec(id2) == s0.owner_of_spec(id2));
                assert(s3.owner_of_spec(id2) == s2.owner_of_spec(id2));
            }
            // counts seen from the entry state
            assert(self.count_of_spec(seller) == s2.count_of_spec(seller));
            assert(self.count_of_spec(sender) == s2.count_of_spec(sender));
            assert forall|a: u64| a != sender && a != seller implies #[trigger] self.count_of_spec(
                a) == s0.count_of_spec(a) by {
                assert(s2.count_of_spec(a) == s0.count_of_spec(a));
                assert(s3.count_of_spec(a) == s2.count_of_spec(a));
            }
            // the two recorded events
            assert(self.events@ =~= s3.events@.push(self.events@.last()));
            assert(s3.events@ == s2.events@);
            assert(self.events@[self.events@.len() - 2] == s2.events@.last());
            assert(events_extended(s0.events@, self.events@, 2)) by {
                assert forall|i: int| 0 <= i < s0.events@.len() implies self.events@[i] == s0
                    .events@[i] by {
                    assert(s2.events@[i] == s0.events@[i]);
                    assert(self.events@[i] == s2.events@[i]);
                }
            }
        }
        Ok(())
    }
}

} // verus!
