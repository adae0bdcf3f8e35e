use vstd::prelude::*;
use crate::events::{Error, Event};
use crate::events::{ev_created, events_extended};
use crate::hash256::Hash256;

verus! {

/// A kitty record: identifier, genetic code, sale price (zero means "not for
/// sale") and breeding generation.
#[derive(Debug)]
pub struct Kitty {
    pub id: Hash256,
    pub dna: Hash256,
    pub price: u64,
    pub gen: u64,
}

impl Kitty {
    pub open spec fn wf(&self) -> bool {
        self.id.wf() && self.dna.wf()
    }
}

impl Clone for Kitty {
    fn clone(&self) -> (r: Self)
        ensures
            r.id@ == self.id@,
            r.dna@ == self.dna@,
            r.price == self.price,
            r.gen == self.gen,
    {
        Kitty {
            id: self.id.clone(),
            dna: self.dna.clone(),
            price: self.price,
            gen: self.gen,
        }
    }
}

/// One account's dense array of owned kitties, held as indices into the
/// global array.
pub struct OwnerKitties {
    pub account: u64,
    pub list: Vec<usize>,
}

/// The asset registry: the single source of truth for which kitties exist,
/// what their attributes are, and who owns them.
///
/// A kitty is addressed internally by its global index `g`: its position in
/// `kitties`, assigned at mint and never changed (kitties are never deleted).
pub struct Registry {
    /// The global array: position `g` holds the `g`-th minted kitty.
    pub kitties: Vec<Kitty>,
    /// `owner[g]` is the account that owns kitty `g`.
    pub owner: Vec<u64>,
    /// `pos[g]` is kitty `g`'s position in its owner's array: the reverse
    /// index that makes removal from the middle a constant-size operation.
    pub pos: Vec<usize>,
    /// One dense array per account that has ever owned a kitty.
    pub owned: Vec<OwnerKitties>,
    /// Counts mint-class operations; diversifies identifier generation.
    pub nonce: u64,
    /// Notifications recorded by successful operations, in order.
    pub events: Vec<Event>,
}

pub open spec fn seq_kitty_slot(ks: Seq<Kitty>, k: int, id: Seq<u8>) -> bool {
    0 <= k < ks.len() && ks[k].id@ == id
}

pub open spec fn seq_has_kitty(ks: Seq<Kitty>, id: Seq<u8>) -> bool {
    exists|k: int| seq_kitty_slot(ks, k, id)
}

pub open spec fn seq_index_of(ks: Seq<Kitty>, id: Seq<u8>) -> int {
    choose|k: int| seq_kitty_slot(ks, k, id)
}

pub open spec fn distinct_ids(ks: Seq<Kitty>) -> bool {
    forall|i: int, j: int|
        #![trigger ks[i].id@, ks[j].id@]
        0 <= i < j < ks.len() ==> ks[i].id@ != ks[j].id@
}

pub open spec fn seq_owner_slot(os: Seq<OwnerKitties>, oi: int, acct: u64) -> bool {
    0 <= oi < os.len() && os[oi].account == acct
}

pub open spec fn seq_has_slot(os: Seq<OwnerKitties>, acct: u64) -> bool {
    exists|oi: int| seq_owner_slot(os, oi, acct)
}

pub open spec fn seq_slot_of(os: Seq<OwnerKitties>, acct: u64) -> int {
    choose|oi: int| seq_owner_slot(os, oi, acct)
}

pub open spec fn seq_count_of(os: Seq<OwnerKitties>, acct: u64) -> int {
    if seq_has_slot(os, acct) {
        os[seq_slot_of(os, acct)].list@.len() as int
    } else {
        0
    }
}

pub open spec fn seq_handles(os: Seq<OwnerKitties>, acct: u64) -> Seq<usize> {
    if seq_has_slot(os, acct) {
        os[seq_slot_of(os, acct)].list@
    } else {
        Seq::empty()
    }
}

pub open spec fn distinct_accounts(os: Seq<OwnerKitties>) -> bool {
    forall|i: int, j: int|
        #![trigger os[i].account, os[j].account]
        0 <= i < j < os.len() ==> os[i].account != os[j].account
}

/// The total number of kitties held across all per-owner arrays.
pub open spec fn sum_counts(os: Seq<OwnerKitties>) -> int
    decreases os.len(),
{
    if os.len() == 0 {
        0
    } else {
        sum_counts(os.drop_last()) + os.last().list@.len()
    }
}

pub proof fn lemma_kitty_slot_unique(ks: Seq<Kitty>, k: int, id: Seq<u8>)
    requires
        distinct_ids(ks),
        seq_kitty_slot(ks, k, id),
    ensures
        seq_has_kitty(ks, id),
        seq_index_of(ks, id) == k,
{
    assert(seq_has_kitty(ks, id));
    let k2 = seq_index_of(ks, id);
    assert(seq_kitty_slot(ks, k2, id));
    if k2 < k {
        assert(ks[k2].id@ != ks[k].id@);
    } else if k < k2 {
        assert(ks[k].id@ != ks[k2].id@);
    }
}

pub proof fn lemma_owner_slot_unique(os: Seq<OwnerKitties>, oi: int, acct: u64)
    requires
        distinct_accounts(os),
        seq_owner_slot(os, oi, acct),
    ensures
        seq_has_slot(os, acct),
        seq_slot_of(os, acct) == oi,
{
    assert(seq_has_slot(os, acct));
    let o2 = seq_slot_of(os, acct);
    assert(seq_owner_slot(os, o2, acct));
    if o2 < oi {
        assert(os[o2].account != os[oi].account);
    } else if oi < o2 {
        assert(os[oi].account != os[o2].account);
    }
}

pub proof fn lemma_sum_nonneg(os: Seq<OwnerKitties>)
    ensures
        sum_counts(os) >= 0,
    decreases os.len(),
{
    if os.len() > 0 {
        lemma_sum_nonneg(os.drop_last());
    }
}

pub proof fn lemma_sum_push(os: Seq<OwnerKitties>, e: OwnerKitties)
    ensures
        sum_counts(os.push(e)) == sum_counts(os) + e.list@.len(),
{
    assert(os.push(e).drop_last() =~= os);
    assert(os.push(e).last() == e);
}

pub proof fn lemma_sum_update(os: Seq<OwnerKitties>, i: int, e: OwnerKitties)
    requires
        0 <= i < os.len(),
    ensures
        sum_counts(os.update(i, e)) == sum_counts(os) - os[i].list@.len() + e.list@.len(),
    decreases os.len(),
{
    if i == os.len() - 1 {
        assert(os.update(i, e).drop_last() =~= os.drop_last());
        assert(os.update(i, e).last() == e);
    } else {
        assert(os.update(i, e).drop_last() =~= os.drop_last().update(i, e));
        assert(os.update(i, e).last() == os.last());
        lemma_sum_update(os.drop_last(), i, e);
    }
}

pub proof fn lemma_sum_bound(os: Seq<OwnerKitties>, i: int)
    requires
        0 <= i < os.len(),
    ensures
        sum_counts(os) >= os[i].list@.len(),
    decreases os.len(),
{
    if i == os.len() - 1 {
        lemma_sum_nonneg(os.drop_last());
    } else {
        lemma_sum_bound(os.drop_last(), i);
        assert(os.drop_last()[i] == os[i]);
    }
}

pub proof fn lemma_sum_bound_two(os: Seq<OwnerKitties>, i: int, j: int)
    requires
        0 <= i < j < os.len(),
    ensures
        sum_counts(os) >= os[i].list@.len() + os[j].list@.len(),
    decreases os.len(),
{
    if j == os.len() - 1 {
        lemma_sum_bound(os.drop_last(), i);
        assert(os.drop_last()[i] == os[i]);
    } else {
        lemma_sum_bound_two(os.drop_last(), i, j);
        assert(os.drop_last()[i] == os[i]);
        assert(os.drop_last()[j] == os[j]);
    }
}

/// Well-formedness depends only on the four core maps and the nonce bound:
/// a registry whose core fields equal those of a well-formed one is itself
/// well-formed.
pub proof fn lemma_wf_same_core(a: Registry, b: Registry)
    requires
        a.wf(),
        b.kitties@ == a.kitties@,
        b.owner@ == a.owner@,
        b.pos@ == a.pos@,
        b.owned@ == a.owned@,
        b.nonce <= b.kitties@.len(),
    ensures
        b.wf(),
{
    assert forall|k: int| 0 <= k < b.kitties@.len() implies (#[trigger] b.kitties@[k]).wf() by {
        assert(a.kitties@[k].wf());
    }
    assert forall|oi: int, p: int|
        #![trigger b.owned@[oi].list@[p]]
        0 <= oi < b.owned@.len() && 0 <= p < b.owned@[oi].list@.len() implies b.entry_ok(
        oi, p) by {
        assert(a.entry_ok(oi, p));
    }
    assert forall|h: int| 0 <= h < b.kitties@.len() implies #[trigger] b.is_listed(h) by {
        assert(a.is_listed(h));
        let w = choose|w: int| a.listed_at(w, h);
        assert(b.listed_at(w, h));
    }
}

impl Registry {
    pub open spec fn total_spec(self) -> int {
        self.kitties@.len() as int
    }

    pub open spec fn has_kitty(self, id: Seq<u8>) -> bool {
        seq_has_kitty(self.kitties@, id)
    }

    pub open spec fn index_of(self, id: Seq<u8>) -> int {
        seq_index_of(self.kitties@, id)
    }

    /// The owner of the kitty with identifier `id`, or `None` if unminted.
    pub open spec fn owner_of_spec(self, id: Seq<u8>) -> Option<u64> {
        if self.has_kitty(id) {
            Some(self.owner@[self.index_of(id)])
        } else {
            None
        }
    }

    /// How many kitties `acct` owns.
    pub open spec fn count_of_spec(self, acct: u64) -> int {
        seq_count_of(self.owned@, acct)
    }

    /// The dense array of `acct`, as global indices.
    pub open spec fn owned_handles(self, acct: u64) -> Seq<usize> {
        seq_handles(self.owned@, acct)
    }

    pub open spec fn dna_of_spec(self, id: Seq<u8>) -> Seq<u8> {
        self.kitties@[self.index_of(id)].dna@
    }

    pub open spec fn price_of_spec(self, id: Seq<u8>) -> u64 {
        self.kitties@[self.index_of(id)].price
    }

    pub open spec fn gen_of_spec(self, id: Seq<u8>) -> u64 {
        self.kitties@[self.index_of(id)].gen
    }

    /// Position `p` of slot `oi` names a kitty owned by that slot's account,
    /// whose reverse index points back at `p`.
    pub open spec fn entry_ok(self, oi: int, p: int) -> bool {
        let h = self.owned@[oi].list@[p] as int;
        &&& 0 <= h < self.kitties@.len()
        &&& self.owner@[h] == self.owned@[oi].account
        &&& self.pos@[h] as int == p
    }

    /// Kitty `h` appears in slot `oi` exactly where its reverse index says.
    pub open spec fn listed_at(self, oi: int, h: int) -> bool {
        &&& seq_owner_slot(self.owned@, oi, self.owner@[h])
        &&& (self.pos@[h] as int) < self.owned@[oi].list@.len()
        &&& self.owned@[oi].list@[self.pos@[h] as int] as int == h
    }

    pub open spec fn is_listed(self, h: int) -> bool {
        exists|oi: int| self.listed_at(oi, h)
    }

    /// The registry's invariant: the parallel global maps agree in length,
    /// identifiers are unique, per-owner arrays and the reverse index are
    /// exact mirrors of the ownership map, and the per-owner counts sum to
    /// the global count.
    pub open spec fn wf(self) -> bool {
        &&& self.owner@.len() == self.kitties@.len()
        &&& self.pos@.len() == self.kitties@.len()
        &&& forall|k: int| 0 <= k < self.kitties@.len() ==> (#[trigger] self.kitties@[k]).wf()
        &&& distinct_ids(self.kitties@)
        &&& distinct_accounts(self.owned@)
        &&& forall|oi: int, p: int|
            #![trigger self.owned@[oi].list@[p]]
            0 <= oi < self.owned@.len() && 0 <= p < self.owned@[oi].list@.len()
                ==> self.entry_ok(oi, p)
        &&& forall|h: int| 0 <= h < self.kitties@.len() ==> #[trigger] self.is_listed(h)
        &&& sum_counts(self.owned@) == self.kitties@.len()
        &&& self.nonce <= self.kitties@.len()
    }

    /// An empty registry: nothing minted, nonce zero, no events.
    pub fn new() -> (r: Registry)
        ensures
            r.wf(),
            r.total_spec() == 0,
            r.nonce == 0,
            r.events@.len() == 0,
            forall|id: Seq<u8>| !(#[trigger] r.has_kitty(id)),
            forall|a: u64| #[trigger] r.count_of_spec(a) == 0,
    {
        let r = Registry {
            kitties: Vec::new(),
            owner: Vec::new(),
            pos: Vec::new(),
            owned: Vec::new(),
            nonce: 0,
            events: Vec::new(),
        };
        proof {
            assert forall|id: Seq<u8>| !(#[trigger] r.has_kitty(id)) by {
                if r.has_kitty(id) {
                    let k = seq_index_of(r.kitties@, id);
                    assert(seq_kitty_slot(r.kitties@, k, id));
                }
            }
            assert forall|a: u64| #[trigger] r.count_of_spec(a) == 0 by {
                if seq_has_slot(r.owned@, a) {
                    let oi = seq_slot_of(r.owned@, a);
                    assert(seq_owner_slot(r.owned@, oi, a));
                }
            }
        }
        r
    }

    /// The global index of the kitty with identifier `id`, if minted.
    pub(crate) fn find_kitty(&self, id: &Hash256) -> (r: Option<usize>)
        requires
            self.wf(),
        ensures
            match r {
                Some(g) => seq_kitty_slot(self.kitties@, g as int, id@) && g as int
                    == self.index_of(id@) && self.has_kitty(id@),
                None => !self.has_kitty(id@),
            },
    {
        let n = self.kitties.len();
        let mut i: usize = 0;
        while i < n
            invariant
                self.wf(),
                n == self.kitties@.len(),
                i <= n,
                forall|k: int| 0 <= k < i ==> !(#[trigger] seq_kitty_slot(self.kitties@, k, id@)),
            decreases n - i,
        {
            if self.kitties[i].id == *id {
                proof {
                    lemma_kitty_slot_unique(self.kitties@, i as int, id@);
                }
                return Some(i);
            }
            i += 1;
        }
        proof {
            if self.has_kitty(id@) {
                let k = choose|k: int| seq_kitty_slot(self.kitties@, k, id@);
                assert(!seq_kitty_slot(self.kitties@, k, id@));
            }
        }
        None
    }

    /// The slot of `acct` in the per-owner table, if it has one.
    pub(crate) fn find_slot(&self, acct: u64) -> (r: Option<usize>)
        requires
            self.wf(),
        ensures
            match r {
                Some(oi) => seq_owner_slot(self.owned@, oi as int, acct) && oi as int
                    == seq_slot_of(self.owned@, acct) && seq_has_slot(self.owned@, acct),
                None => !seq_has_slot(self.owned@, acct),
            },
    {
        let n = self.owned.len();
        let mut i: usize = 0;
        while i < n
            invariant
                self.wf(),
                n == self.owned@.len(),
                i <= n,
                forall|oi: int| 0 <= oi < i ==> !(#[trigger] seq_owner_slot(self.owned@, oi, acct)),
            decreases n - i,
        {
            if self.owned[i].account == acct {
                proof {
                    lemma_owner_slot_unique(self.owned@, i as int, acct);
                }
                return Some(i);
            }
            i += 1;
        }
        proof {
            if seq_has_slot(self.owned@, acct) {
                let oi = choose|oi: int| seq_owner_slot(self.owned@, oi, acct);
                assert(!seq_owner_slot(self.owned@, oi, acct));
            }
        }
        None
    }

    /// Whether a kitty with identifier `id` has been minted.
    pub fn is_minted(&self, id: &Hash256) -> (r: bool)
        requires
            self.wf(),
        ensures
            r == self.has_kitty(id@),
    {
        self.find_kitty(id).is_some()
    }

    /// The owner of `id`, or `None` if no kitty with that identifier has
    /// been minted.
    pub fn owner_of(&self, id: &Hash256) -> (r: Option<u64>)
        requires
            self.wf(),
        ensures
            r == self.owner_of_spec(id@),
    {
        match self.find_kitty(id) {
            Some(g) => Some(self.owner[g]),
            None => None,
        }
    }

    /// How many kitties `acct` owns; zero for an account never seen.
    pub fn owned_kitty_count(&self, acct: u64) -> (r: u64)
        requires
            self.wf(),
        ensures
            r as int == self.count_of_spec(acct),
    {
        match self.find_slot(acct) {
            Some(oi) => self.owned[oi].list.len() as u64,
            None => 0,
        }
    }

    /// How many kitties have ever been minted.
    pub fn all_kitties_count(&self) -> (r: u64)
        ensures
            r as int == self.total_spec(),
    {
        self.kitties.len() as u64
    }

    /// The attributes of the kitty with identifier `id`, or `None` if
    /// unminted.
    pub fn kitty(&self, id: &Hash256) -> (r: Option<Kitty>)
        requires
            self.wf(),
        ensures
            match r {
                Some(k) => {
                    &&& self.has_kitty(id@)
                    &&& k.id@ == id@
                    &&& k.dna@ == self.dna_of_spec(id@)
                    &&& k.price == self.price_of_spec(id@)
                    &&& k.gen == self.gen_of_spec(id@)
                },
                None => !self.has_kitty(id@),
            },
    {
        match self.find_kitty(id) {
            Some(g) => Some(self.kitties[g].clone()),
            None => None,
        }
    }

    /// The identifier of the `idx`-th kitty ever minted.
    pub fn kitty_by_index(&self, idx: u64) -> (r: Option<Hash256>)
        requires
            self.wf(),
        ensures
            match r {
                Some(h) => idx < self.total_spec() && h@ == self.kitties@[idx as int].id@,
                None => idx >= self.total_spec(),
            },
    {
        let n = self.kitties.len();
        if idx < n as u64 {
            proof {
                assert((idx as usize) as int == idx as int);
            }
            Some(self.kitties[idx as usize].id.clone())
        } else {
            None
        }
    }

    /// The identifier at position `idx` of `acct`'s array. The order is not
    /// stable across removals: a removal moves the last entry into the
    /// vacated position.
    pub fn kitty_of_owner_by_index(&self, acct: u64, idx: u64) -> (r: Option<Hash256>)
        requires
            self.wf(),
        ensures
            match r {
                Some(h) => idx < self.count_of_spec(acct) && h@ == self.kitties@[
                    self.owned_handles(acct)[idx as int] as int].id@,
                None => idx >= self.count_of_spec(acct),
            },
    {
        match self.find_slot(acct) {
            Some(oi) => {
                if idx < self.owned[oi].list.len() as u64 {
                    proof {
                        assert(idx < self.owned@[oi as int].list@.len());
                        assert((idx as usize) as int == idx as int);
                    }
                    let g = self.owned[oi].list[idx as usize];
                    proof {
                        assert(self.entry_ok(oi as int, idx as int));
                    }
                    Some(self.kitties[g].id.clone())
                } else {
                    None
                }
            },
            None => None,
        }
    }

    /// Finds the slot of `acct`, creating an empty one if it has none.
    pub(crate) fn ensure_slot(&mut self, acct: u64) -> (oi: usize)
        requires
            old(self).wf(),
        ensures
            final(self).wf(),
            seq_owner_slot(final(self).owned@, oi as int, acct),
            seq_slot_of(final(self).owned@, acct) == oi as int,
            seq_has_slot(final(self).owned@, acct),
            final(self).kitties == old(self).kitties,
            final(self).owner == old(self).owner,
            final(self).pos == old(self).pos,
            final(self).nonce == old(self).nonce,
            final(self).events == old(self).events,
            old(self).owned@.len() <= final(self).owned@.len() <= old(self).owned@.len() + 1,
            forall|i: int|
                0 <= i < old(self).owned@.len() ==> final(self).owned@[i] == old(self).owned@[i],
            final(self).owned@.len() > old(self).owned@.len() ==> {
                &&& !seq_has_slot(old(self).owned@, acct)
                &&& final(self).owned@.last().account == acct
                &&& final(self).owned@.last().list@.len() == 0
            },
            forall|a: u64| #[trigger] seq_count_of(final(self).owned@, a) == seq_count_of(
                old(self).owned@, a),
            forall|a: u64| #[trigger] seq_handles(final(self).owned@, a) == seq_handles(
                old(self).owned@, a),
    {
        match self.find_slot(acct) {
            Some(oi) => oi,
            None => {
                let oi = self.owned.len();
                let ghost s0 = *self;
                self.owned.push(OwnerKitties { account: acct, list: Vec::new() });
                proof {
                    let os0 = s0.owned@;
                    let os1 = self.owned@;
                    lemma_sum_push(os0, os1.last());
                    assert(os1 =~= os0.push(os1.last()));
                    assert(os1.last().list@.len() == 0);
                    // distinct accounts still hold: acct had no slot before
                    assert forall|i: int, j: int|
                        #![trigger os1[i].account, os1[j].account]
                        0 <= i < j < os1.len() implies os1[i].account != os1[j].account by {
                        if j < os0.len() {
                            assert(os0[i].account != os0[j].account);
                        } else {
                            if os1[i].account == acct {
                                assert(seq_owner_slot(os0, i, acct));
                            }
                        }
                    }
                    // duality is untouched: old entries keep their indices
                    assert forall|oi2: int, p: int|
                        #![trigger self.owned@[oi2].list@[p]]
                        0 <= oi2 < os1.len() && 0 <= p < os1[oi2].list@.len() implies self.entry_ok(
                        oi2, p) by {
                        assert(oi2 < os0.len());
                        assert(s0.entry_ok(oi2, p));
                    }
                    assert forall|h: int| 0 <= h < self.kitties@.len() implies #[trigger] self
                        .is_listed(h) by {
                        assert(s0.is_listed(h));
                        let w = choose|w: int| s0.listed_at(w, h);
                        assert(self.listed_at(w, h));
                    }
                    lemma_owner_slot_unique(os1, oi as int, acct);
                    // counts are unchanged for every account
                    assert forall|a: u64| #[trigger] seq_count_of(os1, a) == seq_count_of(
                        os0, a) by {
                        if a == acct {
                            assert(seq_slot_of(os1, a) == oi as int);
                            assert(seq_count_of(os1, a) == 0);
                        } else {
                            if seq_has_slot(os0, a) {
                                let w = seq_slot_of(os0, a);
                                assert(seq_owner_slot(os0, w, a));
                                assert(seq_owner_slot(os1, w, a));
                                lemma_owner_slot_unique(os1, w, a);
                            } else if seq_has_slot(os1, a) {
                                let w = seq_slot_of(os1, a);
                                assert(seq_owner_slot(os1, w, a));
                                assert(w < os0.len() || os1[w].account == acct);
                                assert(seq_owner_slot(os0, w, a));
                            }
                        }
                    }
                    // and so are the arrays themselves
                    assert forall|a: u64| #[trigger] seq_handles(os1, a) == seq_handles(
                        os0, a) by {
                        if a == acct {
                            assert(seq_slot_of(os1, a) == oi as int);
                            assert(seq_handles(os1, a) =~= Seq::<usize>::empty());
                        } else {
                            if seq_has_slot(os0, a) {
                                let w = seq_slot_of(os0, a);
                                assert(seq_owner_slot(os0, w, a));
                                assert(seq_owner_slot(os1, w, a));
                                lemma_owner_slot_unique(os1, w, a);
                            } else if seq_has_slot(os1, a) {
                                let w = seq_slot_of(os1, a);
                                assert(seq_owner_slot(os1, w, a));
                                assert(w < os0.len() || os1[w].account == acct);
                                assert(seq_owner_slot(os0, w, a));
                            }
                        }
                    }
                }
                oi
            },
        }
    }

    /// Admits a brand-new kitty into the registry: the single admission
    /// point for new identifiers.
    ///
    /// Fails with `AlreadyExists` if the identifier is already minted, and
    /// with `CounterOverflow` if the owner's or the global count is at its
    /// maximum; a failure leaves the registry unchanged. On success the
    /// kitty is stored, `to` becomes its owner, both the per-owner and the
    /// global arrays grow by one, and a `Created` event is recorded.
    pub fn mint(&mut self, to: u64, kitty: Kitty) -> (r: Result<(), Error>)
        requires
            old(self).wf(),
            kitty.wf(),
        ensures
            final(self).wf(),
            match r {
                Ok(()) => {
                    &&& !old(self).has_kitty(kitty.id@)
                    &&& old(self).count_of_spec(to) < u64::MAX
                    &&& old(self).total_spec() < u64::MAX
                    &&& final(self).kitties@ == old(self).kitties@.push(kitty)
                    &&& final(self).has_kitty(kitty.id@)
                    &&& final(self).index_of(kitty.id@) == old(self).total_spec()
                    &&& final(self).owner_of_spec(kitty.id@) == Some(to)
                    &&& final(self).total_spec() == old(self).total_spec() + 1
                    &&& final(self).count_of_spec(to) == old(self).count_of_spec(to) + 1
                    &&& final(self).owned_handles(to) == old(self).owned_handles(to).push(
                        old(self).total_spec() as usize)
                    &&& forall|a: u64| a != to ==> #[trigger] final(self).count_of_spec(a) == old(
                        self).count_of_spec(a)
                    &&& forall|a: u64| a != to ==> #[trigger] final(self).owned_handles(a) == old(
                        self).owned_handles(a)
                    &&& forall|id2: Seq<u8>| id2 != kitty.id@ ==> #[trigger] final(
                        self).owner_of_spec(id2) == old(self).owner_of_spec(id2)
                    &&& forall|id2: Seq<u8>| old(self).has_kitty(id2) ==> #[trigger] final(
                        self).index_of(id2) == old(self).index_of(id2)
                    &&& final(self).nonce == old(self).nonce
                    &&& events_extended(old(self).events@, final(self).events@, 1)
                    &&& ev_created(final(self).events@.last(), to, kitty.id@)
                },
                Err(e) => {
                    &&& *final(self) == *old(self)
                    &&& (e == Error::AlreadyExists <==> old(self).has_kitty(kitty.id@))
                    &&& (e == Error::CounterOverflow <==> !old(self).has_kitty(kitty.id@) && (old(
                        self).count_of_spec(to) == u64::MAX || old(self).total_spec() == u64::MAX))
                    &&& (e == Error::AlreadyExists || e == Error::CounterOverflow)
                },
            },
    {
        if self.find_kitty(&kitty.id).is_some() {
            return Err(Error::AlreadyExists);
        }
        let owned_count = self.owned_kitty_count(to);
        if owned_count == u64::MAX {
            return Err(Error::CounterOverflow);
        }
        let total = self.all_kitties_count();
        if total == u64::MAX {
            return Err(Error::CounterOverflow);
        }
        let oi = self.ensure_slot(to);
        let ghost s1 = *self;
        let g = self.kitties.len();
        let id_copy = kitty.id.clone();
        let ghost kid = kitty.id@;
        let p = self.owned[oi].list.len();
        self.kitties.push(kitty);
        self.owner.push(to);
        self.pos.push(p);
        self.owned[oi].list.push(g);
        self.events.push(Event::Created { owner: to, id: id_copy });
        proof {
            let s0 = *old(self);
            let n = s1.kitties@.len() as int;
            assert(self.kitties@ =~= s1.kitties@.push(self.kitties@.last()));
            assert(self.owned@ =~= s1.owned@.update(oi as int, self.owned@[oi as int]));
            assert(self.owned@[oi as int].list@ =~= s1.owned@[oi as int].list@.push(g));
            assert(self.owned@[oi as int].account == to);
            // identifiers stay distinct: the new one was not present
            assert forall|i: int, j: int|
                #![trigger self.kitties@[i].id@, self.kitties@[j].id@]
                0 <= i < j < self.kitties@.len() implies self.kitties@[i].id@ != self.kitties@[
                j].id@ by {
                if j < n {
                    assert(s1.kitties@[i].id@ != s1.kitties@[j].id@);
                } else {
                    if self.kitties@[i].id@ == kid {
                        assert(seq_kitty_slot(s1.kitties@, i, kid));
                        assert(s1.has_kitty(kid));
                    }
                }
            }
            assert forall|k: int| 0 <= k < self.kitties@.len() implies (#[trigger] self.kitties@[
                k]).wf() by {
                if k < n {
                    assert(s1.kitties@[k].wf());
                }
            }
            // every array entry still mirrors the ownership map
            assert forall|oi2: int, p2: int|
                #![trigger self.owned@[oi2].list@[p2]]
                0 <= oi2 < self.owned@.len() && 0 <= p2 < self.owned@[oi2].list@.len() implies self
                .entry_ok(oi2, p2) by {
                if oi2 == oi as int {
                    if p2 < p as int {
                        assert(s1.entry_ok(oi2, p2));
                        assert(self.owned@[oi2].list@[p2] == s1.owned@[oi2].list@[p2]);
                    } else {
                        assert(self.owned@[oi2].list@[p2] == g);
                    }
                } else {
                    assert(s1.entry_ok(oi2, p2));
                    assert(self.owned@[oi2].list@[p2] == s1.owned@[oi2].list@[p2]);
                }
            }
            // every kitty is still listed, the new one at the new position
            assert forall|h: int| 0 <= h < self.kitties@.len() implies #[trigger] self.is_listed(
                h) by {
                if h < n {
                    assert(s1.is_listed(h));
                    let w = choose|w: int| s1.listed_at(w, h);
                    if w == oi as int {
                        assert(self.owned@[w].list@[s1.pos@[h] as int] == s1.owned@[w].list@[
                            s1.pos@[h] as int]);
                    }
                    assert(self.listed_at(w, h));
                } else {
                    assert(self.owner@[h] == to);
                    assert(self.pos@[h] == p);
                    assert(self.owned@[oi as int].list@[p as int] == g);
                    assert(self.listed_at(oi as int, h));
                }
            }
            // the counts balance: one owner gained one kitty
            lemma_sum_update(s1.owned@, oi as int, self.owned@[oi as int]);
            assert(sum_counts(self.owned@) == self.kitties@.len());
            assert(self.wf());
            // the new kitty is owned by `to`
            lemma_kitty_slot_unique(self.kitties@, n, kid);
            assert(self.owner_of_spec(kid) == Some(to));
            // counts and handles: `to` gained one entry, others unchanged
            lemma_owner_slot_unique(self.owned@, oi as int, to);
            assert(self.count_of_spec(to) == s1.owned@[oi as int].list@.len() + 1);
            assert(seq_count_of(s1.owned@, to) == s1.owned@[oi as int].list@.len()) by {
                lemma_owner_slot_unique(s1.owned@, oi as int, to);
            }
            assert(self.owned_handles(to) =~= s1.owned_handles(to).push(n as usize)) by {
                lemma_owner_slot_unique(s1.owned@, oi as int, to);
            }
            assert forall|a: u64| a != to implies #[trigger] seq_count_of(self.owned@, a)
                == seq_count_of(s0.owned@, a) by {
                assert(seq_count_of(s1.owned@, a) == seq_count_of(s0.owned@, a));
                if seq_has_slot(s1.owned@, a) {
                    let w = seq_slot_of(s1.owned@, a);
                    assert(seq_owner_slot(s1.owned@, w, a));
                    assert(w != oi as int);
                    assert(seq_owner_slot(self.owned@, w, a));
                    lemma_owner_slot_unique(self.owned@, w, a);
                    lemma_owner_slot_unique(s1.owned@, w, a);
                    assert(self.owned@[w] == s1.owned@[w]);
                } else {
                    if seq_has_slot(self.owned@, a) {
                        let w = seq_slot_of(self.owned@, a);
                        assert(seq_owner_slot(self.owned@, w, a));
                        assert(seq_owner_slot(s1.owned@, w, a));
                    }
                }
            }
            assert forall|a: u64| a != to implies #[trigger] seq_handles(self.owned@, a)
                == seq_handles(s0.owned@, a) by {
                assert(seq_handles(s1.owned@, a) == seq_handles(s0.owned@, a));
                if seq_has_slot(s1.owned@, a) {
                    let w = seq_slot_of(s1.owned@, a);
                    assert(seq_owner_slot(s1.owned@, w, a));
                    assert(w != oi as int);
                    assert(seq_owner_slot(self.owned@, w, a));
                    lemma_owner_slot_unique(self.owned@, w, a);
                    lemma_owner_slot_unique(s1.owned@, w, a);
                    assert(self.owned@[w] == s1.owned@[w]);
                } else {
                    if seq_has_slot(self.owned@, a) {
                        let w = seq_slot_of(self.owned@, a);
                        assert(seq_owner_slot(self.owned@, w, a));
                        assert(seq_owner_slot(s1.owned@, w, a));
                    }
                }
            }
            // other identifiers keep their owner and their index
            assert forall|id2: Seq<u8>| id2 != kid implies #[trigger] self.owner_of_spec(id2) == s1
                .owner_of_spec(id2) by {
                if s1.has_kitty(id2) {
                    let k = s1.index_of(id2);
                    assert(seq_kitty_slot(s1.kitties@, k, id2));
                    assert(seq_kitty_slot(self.kitties@, k, id2));
                    lemma_kitty_slot_unique(self.kitties@, k, id2);
                    lemma_kitty_slot_unique(s1.kitties@, k, id2);
                } else {
                    if self.has_kitty(id2) {
                        let k = self.index_of(id2);
                        assert(seq_kitty_slot(self.kitties@, k, id2));
                        assert(k != n);
                        assert(seq_kitty_slot(s1.kitties@, k, id2));
                    }
                }
            }
            assert forall|id2: Seq<u8>| s1.has_kitty(id2) implies #[trigger] self.index_of(id2)
                == s1.index_of(id2) by {
                let k = s1.index_of(id2);
                assert(seq_kitty_slot(s1.kitties@, k, id2));
                assert(seq_kitty_slot(self.kitties@, k, id2));
                lemma_kitty_slot_unique(self.kitties@, k, id2);
                lemma_kitty_slot_unique(s1.kitties@, k, id2);
            }
            // relate the intermediate state back to the entry state
            assert(s1.kitties == s0.kitties && s1.owner == s0.owner && s1.pos == s0.pos);
            assert(self.events@ =~= s0.events@.push(self.events@.last()));
        }
        Ok(())
    }
}

} // verus!
