use kitty_registry::events::{Error, Event};
use kitty_registry::hash256::Hash256;
use kitty_registry::ops::Payment;
use kitty_registry::registry::{Kitty, Registry};

const ALICE: u64 = 1;
const BOB: u64 = 2;
const CAROL: u64 = 3;

fn h(b: u8) -> Hash256 {
    Hash256 { bytes: vec![b; 32] }
}

fn plain_kitty(b: u8) -> Kitty {
    Kitty { id: h(b), dna: h(b), price: 0, gen: 0 }
}

#[test]
fn empty_registry_has_nothing() {
    let reg = Registry::new();
    assert_eq!(reg.all_kitties_count(), 0);
    assert_eq!(reg.owned_kitty_count(ALICE), 0);
    assert!(reg.owner_of(&h(1)).is_none());
    assert!(reg.kitty(&h(1)).is_none());
    assert!(reg.kitty_by_index(0).is_none());
    assert!(reg.kitty_of_owner_by_index(ALICE, 0).is_none());
}

#[test]
fn mint_assigns_owner_and_counts() {
    let mut reg = Registry::new();
    assert_eq!(reg.mint(ALICE, plain_kitty(7)), Ok(()));
    assert_eq!(reg.owner_of(&h(7)), Some(ALICE));
    assert_eq!(reg.owned_kitty_count(ALICE), 1);
    assert_eq!(reg.all_kitties_count(), 1);
    assert_eq!(reg.kitty_by_index(0).unwrap(), h(7));
    assert_eq!(reg.kitty_of_owner_by_index(ALICE, 0).unwrap(), h(7));
    assert!(matches!(&reg.events[0], Event::Created { owner: o, id } if *o == ALICE && *id == h(7)));
}

#[test]
fn mint_existing_id_fails_and_changes_nothing() {
    let mut reg = Registry::new();
    assert_eq!(reg.mint(ALICE, plain_kitty(7)), Ok(()));
    let before_events = reg.events.len();
    assert_eq!(reg.mint(BOB, plain_kitty(7)), Err(Error::AlreadyExists));
    assert_eq!(reg.owner_of(&h(7)), Some(ALICE));
    assert_eq!(reg.owned_kitty_count(ALICE), 1);
    assert_eq!(reg.owned_kitty_count(BOB), 0);
    assert_eq!(reg.all_kitties_count(), 1);
    assert_eq!(reg.events.len(), before_events);
}

#[test]
fn mint_rejects_wrong_id_even_with_fresh_dna() {
    let mut reg = Registry::new();
    let k = Kitty { id: h(9), dna: h(10), price: 55, gen: 3 };
    assert_eq!(reg.mint(CAROL, k), Ok(()));
    let stored = reg.kitty(&h(9)).unwrap();
    assert_eq!(stored.dna, h(10));
    assert_eq!(stored.price, 55);
    assert_eq!(stored.gen, 3);
}

#[test]
fn set_price_requires_existing_kitty() {
    let mut reg = Registry::new();
    assert_eq!(reg.set_price(ALICE, &h(1), 10), Err(Error::NotFound));
}

#[test]
fn set_price_requires_ownership() {
    let mut reg = Registry::new();
    assert_eq!(reg.mint(ALICE, plain_kitty(1)), Ok(()));
    assert_eq!(reg.set_price(BOB, &h(1), 10), Err(Error::NotOwner));
    assert_eq!(reg.kitty(&h(1)).unwrap().price, 0);
}

#[test]
fn set_price_updates_only_the_price() {
    let mut reg = Registry::new();
    assert_eq!(reg.mint(ALICE, plain_kitty(1)), Ok(()));
    assert_eq!(reg.mint(ALICE, plain_kitty(2)), Ok(()));
    assert_eq!(reg.set_price(ALICE, &h(1), 100), Ok(()));
    assert_eq!(reg.kitty(&h(1)).unwrap().price, 100);
    assert_eq!(reg.kitty(&h(2)).unwrap().price, 0);
    assert!(matches!(&reg.events[2],
        Event::PriceSet { owner, id, price } if *owner == ALICE && *id == h(1) && *price == 100));
}

#[test]
fn transfer_requires_ownership() {
    let mut reg = Registry::new();
    assert_eq!(reg.transfer(ALICE, BOB, &h(1)), Err(Error::NotOwner));
    assert_eq!(reg.mint(ALICE, plain_kitty(1)), Ok(()));
    assert_eq!(reg.transfer(BOB, CAROL, &h(1)), Err(Error::NotOwner));
    assert_eq!(reg.owner_of(&h(1)), Some(ALICE));
}

#[test]
fn transfer_moves_ownership_and_counts() {
    let mut reg = Registry::new();
    assert_eq!(reg.mint(ALICE, plain_kitty(1)), Ok(()));
    assert_eq!(reg.mint(ALICE, plain_kitty(2)), Ok(()));
    assert_eq!(reg.mint(CAROL, plain_kitty(3)), Ok(()));
    assert_eq!(reg.transfer(ALICE, BOB, &h(1)), Ok(()));
    assert_eq!(reg.owner_of(&h(1)), Some(BOB));
    assert_eq!(reg.owner_of(&h(2)), Some(ALICE));
    assert_eq!(reg.owned_kitty_count(ALICE), 1);
    assert_eq!(reg.owned_kitty_count(BOB), 1);
    assert_eq!(reg.owned_kitty_count(CAROL), 1);
    assert_eq!(reg.all_kitties_count(), 3);
    assert!(matches!(&reg.events[3],
        Event::Transferred { from, to, id } if *from == ALICE && *to == BOB && *id == h(1)));
}

#[test]
fn transfer_compacts_by_moving_the_last_entry() {
    // Alice owns A, B, C at positions 0, 1, 2; transferring A away moves C
    // (the last entry) into position 0 and leaves the count at 2.
    let mut reg = Registry::new();
    assert_eq!(reg.mint(ALICE, plain_kitty(0xa)), Ok(()));
    assert_eq!(reg.mint(ALICE, plain_kitty(0xb)), Ok(()));
    assert_eq!(reg.mint(ALICE, plain_kitty(0xc)), Ok(()));
    assert_eq!(reg.transfer(ALICE, BOB, &h(0xa)), Ok(()));
    assert_eq!(reg.owned_kitty_count(ALICE), 2);
    assert_eq!(reg.kitty_of_owner_by_index(ALICE, 0).unwrap(), h(0xc));
    assert_eq!(reg.kitty_of_owner_by_index(ALICE, 1).unwrap(), h(0xb));
    assert!(reg.kitty_of_owner_by_index(ALICE, 2).is_none());
    assert_eq!(reg.kitty_of_owner_by_index(BOB, 0).unwrap(), h(0xa));
}

#[test]
fn transfer_to_self_keeps_the_count() {
    let mut reg = Registry::new();
    assert_eq!(reg.mint(ALICE, plain_kitty(1)), Ok(()));
    assert_eq!(reg.mint(ALICE, plain_kitty(2)), Ok(()));
    assert_eq!(reg.transfer(ALICE, ALICE, &h(1)), Ok(()));
    assert_eq!(reg.owned_kitty_count(ALICE), 2);
    assert_eq!(reg.owner_of(&h(1)), Some(ALICE));
}

#[test]
fn buy_prepare_rejects_bad_purchases() {
    let mut reg = Registry::new();
    assert_eq!(reg.buy_prepare(BOB, &h(1), 100), Err(Error::NotFound));
    assert_eq!(reg.mint(ALICE, plain_kitty(1)), Ok(()));
    assert_eq!(reg.buy_prepare(ALICE, &h(1), 100), Err(Error::SelfTrade));
    assert_eq!(reg.buy_prepare(BOB, &h(1), 100), Err(Error::NotForSale));
    assert_eq!(reg.set_price(ALICE, &h(1), 150), Ok(()));
    assert_eq!(reg.buy_prepare(BOB, &h(1), 100), Err(Error::PriceTooHigh));
}

#[test]
fn buy_scenario_moves_payment_and_ownership() {
    // Mint A to Alice, price it at 100; Bob buys with a ceiling of 150.
    let mut reg = Registry::new();
    assert_eq!(reg.mint(ALICE, plain_kitty(1)), Ok(()));
    assert_eq!(reg.owner_of(&h(1)), Some(ALICE));
    assert_eq!(reg.owned_kitty_count(ALICE), 1);
    assert_eq!(reg.set_price(ALICE, &h(1), 100), Ok(()));
    assert_eq!(reg.kitty(&h(1)).unwrap().price, 100);

    let pay = reg.buy_prepare(BOB, &h(1), 150).unwrap();
    assert_eq!(pay, Payment { buyer: BOB, seller: ALICE, amount: 100 });

    // the caller runs the payment through the ledger, then settles
    let mut balances = [(ALICE, 10u64), (BOB, 120u64)];
    let paid = ledger_transfer(&mut balances, pay.buyer, pay.seller, pay.amount);
    assert!(paid);
    assert_eq!(balances, [(ALICE, 110), (BOB, 20)]);

    assert_eq!(reg.buy_kitty(BOB, &h(1), 150, paid), Ok(()));
    assert_eq!(reg.owner_of(&h(1)), Some(BOB));
    assert_eq!(reg.kitty(&h(1)).unwrap().price, 0);
    assert_eq!(reg.owned_kitty_count(ALICE), 0);
    assert_eq!(reg.owned_kitty_count(BOB), 1);
    let n = reg.events.len();
    assert!(matches!(&reg.events[n - 2],
        Event::Transferred { from, to, id } if *from == ALICE && *to == BOB && *id == h(1)));
    assert!(matches!(&reg.events[n - 1],
        Event::Bought { buyer, seller, id, price }
            if *buyer == BOB && *seller == ALICE && *id == h(1) && *price == 100));
}

fn ledger_transfer(balances: &mut [(u64, u64); 2], from: u64, to: u64, amount: u64) -> bool {
    let from_idx = balances.iter().position(|&(a, _)| a == from).unwrap();
    if balances[from_idx].1 < amount {
        return false;
    }
    balances[from_idx].1 -= amount;
    let to_idx = balances.iter().position(|&(a, _)| a == to).unwrap();
    balances[to_idx].1 += amount;
    true
}

#[test]
fn buy_aborts_when_payment_fails() {
    let mut reg = Registry::new();
    assert_eq!(reg.mint(ALICE, plain_kitty(1)), Ok(()));
    assert_eq!(reg.set_price(ALICE, &h(1), 100), Ok(()));
    let events_before = reg.events.len();

    // Bob's balance is too small: the ledger declines
    let mut balances = [(ALICE, 0u64), (BOB, 50u64)];
    let pay = reg.buy_prepare(BOB, &h(1), 150).unwrap();
    let paid = ledger_transfer(&mut balances, pay.buyer, pay.seller, pay.amount);
    assert!(!paid);

    assert_eq!(reg.buy_kitty(BOB, &h(1), 150, paid), Err(Error::PaymentFailed));
    assert_eq!(reg.owner_of(&h(1)), Some(ALICE));
    assert_eq!(reg.kitty(&h(1)).unwrap().price, 100);
    assert_eq!(reg.owned_kitty_count(ALICE), 1);
    assert_eq!(reg.owned_kitty_count(BOB), 0);
    assert_eq!(reg.events.len(), events_before);
    assert_eq!(balances, [(ALICE, 0), (BOB, 50)]);
}

#[test]
fn counts_are_conserved_across_operations() {
    let mut reg = Registry::new();
    assert_eq!(reg.mint(ALICE, plain_kitty(1)), Ok(()));
    assert_eq!(reg.mint(BOB, plain_kitty(2)), Ok(()));
    assert_eq!(reg.mint(ALICE, plain_kitty(3)), Ok(()));
    assert_eq!(reg.transfer(ALICE, CAROL, &h(3)), Ok(()));
    let sum = reg.owned_kitty_count(ALICE) + reg.owned_kitty_count(BOB)
        + reg.owned_kitty_count(CAROL);
    assert_eq!(sum, reg.all_kitties_count());
    assert_eq!(sum, 3);
}

#[test]
fn is_minted_tracks_minting() {
    let mut reg = Registry::new();
    assert!(!reg.is_minted(&h(1)));
    assert_eq!(reg.mint(ALICE, plain_kitty(1)), Ok(()));
    assert!(reg.is_minted(&h(1)));
    assert!(!reg.is_minted(&h(2)));
}

#[test]
fn index_duality_holds_after_operations() {
    let mut reg = Registry::new();
    assert_eq!(reg.mint(ALICE, plain_kitty(1)), Ok(()));
    assert_eq!(reg.mint(ALICE, plain_kitty(2)), Ok(()));
    assert_eq!(reg.mint(BOB, plain_kitty(3)), Ok(()));
    assert_eq!(reg.mint(ALICE, plain_kitty(4)), Ok(()));
    assert_eq!(reg.transfer(ALICE, CAROL, &h(1)), Ok(()));
    assert_eq!(reg.transfer(BOB, ALICE, &h(3)), Ok(()));
    // forward: every listed kitty points back at its position and owner
    for slot in reg.owned.iter() {
        for (p, &g) in slot.list.iter().enumerate() {
            assert_eq!(reg.pos[g], p);
            assert_eq!(reg.owner[g], slot.account);
        }
    }
    // backward: every kitty is listed where its reverse index says
    for g in 0..reg.kitties.len() {
        let slot = reg.owned.iter().find(|s| s.account == reg.owner[g]).unwrap();
        assert_eq!(slot.list[reg.pos[g]], g);
    }
    // conservation over the whole table
    let sum: usize = reg.owned.iter().map(|s| s.list.len()).sum();
    assert_eq!(sum, reg.kitties.len());
}

#[test]
fn global_array_keeps_mint_order_across_transfers() {
    let mut reg = Registry::new();
    assert_eq!(reg.mint(ALICE, plain_kitty(1)), Ok(()));
    assert_eq!(reg.mint(BOB, plain_kitty(2)), Ok(()));
    assert_eq!(reg.transfer(ALICE, BOB, &h(1)), Ok(()));
    assert_eq!(reg.kitty_by_index(0).unwrap(), h(1));
    assert_eq!(reg.kitty_by_index(1).unwrap(), h(2));
    assert_eq!(reg.all_kitties_count(), 2);
}
