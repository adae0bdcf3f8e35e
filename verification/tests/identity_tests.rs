use kitty_registry::dna::splice_dna;
use kitty_registry::events::Error;
use kitty_registry::hash256::Hash256;
use kitty_registry::identity::next_id;
use kitty_registry::registry::{Kitty, Registry};

const ALICE: u64 = 1;
const BOB: u64 = 2;

fn h(b: u8) -> Hash256 {
    Hash256 { bytes: vec![b; 32] }
}

fn h_from(bytes: Vec<u8>) -> Hash256 {
    Hash256::from_bytes(bytes).unwrap()
}

#[test]
fn from_bytes_checks_the_length() {
    assert!(Hash256::from_bytes(vec![0; 32]).is_some());
    assert!(Hash256::from_bytes(vec![0; 31]).is_none());
    assert!(Hash256::from_bytes(vec![0; 33]).is_none());
    assert!(Hash256::from_bytes(Vec::new()).is_none());
}

#[test]
fn next_id_is_deterministic() {
    let seed = h(0x5e);
    let a = next_id(&seed, ALICE, 0);
    let b = next_id(&seed, ALICE, 0);
    assert_eq!(a, b);
    assert_eq!(a.bytes.len(), 32);
}

#[test]
fn next_id_depends_on_every_input() {
    let seed = h(0x5e);
    let base = next_id(&seed, ALICE, 0);
    assert_ne!(base, next_id(&seed, ALICE, 1));
    assert_ne!(base, next_id(&seed, BOB, 0));
    assert_ne!(base, next_id(&h(0x5f), ALICE, 0));
    // a digest, not the seed handed back
    assert_ne!(base, seed);
}

#[test]
fn splice_follows_the_even_odd_rule() {
    let dna1: Vec<u8> = (0..32).collect();
    let dna2: Vec<u8> = (0..32).map(|i| 100 + i).collect();
    let draw: Vec<u8> = (0..32).map(|i| if i % 2 == 0 { 2 } else { 3 }).collect();
    let child = splice_dna(&h_from(dna1.clone()), &h_from(dna2.clone()), &h_from(draw));
    let expected: Vec<u8> = (0..32).map(|i| if i % 2 == 0 { dna2[i as usize] } else { dna1[i as usize] }).collect();
    assert_eq!(child.bytes, expected);
}

#[test]
fn splice_all_even_takes_the_second_parent() {
    let child = splice_dna(&h(0x11), &h(0x22), &h(0x02));
    assert_eq!(child, h(0x22));
}

#[test]
fn splice_all_odd_takes_the_first_parent() {
    let child = splice_dna(&h(0x11), &h(0x22), &h(0x03));
    assert_eq!(child, h(0x11));
}

#[test]
fn create_kitty_derives_its_id_from_seed_caller_and_nonce() {
    let mut reg = Registry::new();
    let seed = h(0x42);
    let id = reg.create_kitty(ALICE, &seed).unwrap();
    assert_eq!(id, next_id(&seed, ALICE, 0));
    let stored = reg.kitty(&id).unwrap();
    assert_eq!(stored.dna, id);
    assert_eq!(stored.price, 0);
    assert_eq!(stored.gen, 0);
    assert_eq!(reg.owner_of(&id), Some(ALICE));
    assert_eq!(reg.owned_kitty_count(ALICE), 1);
    // the nonce advanced: the next creation draws a different identifier
    let id2 = reg.create_kitty(ALICE, &seed).unwrap();
    assert_eq!(id2, next_id(&seed, ALICE, 1));
    assert_ne!(id, id2);
}

#[test]
fn breed_requires_both_parents() {
    let mut reg = Registry::new();
    let seed = h(0x42);
    assert_eq!(reg.breed_kitty(ALICE, &seed, &h(1), &h(2)), Err(Error::NotFound));
    assert_eq!(reg.mint(ALICE, Kitty { id: h(1), dna: h(1), price: 0, gen: 0 }), Ok(()));
    assert_eq!(reg.breed_kitty(ALICE, &seed, &h(1), &h(2)), Err(Error::NotFound));
    assert_eq!(reg.breed_kitty(ALICE, &seed, &h(2), &h(1)), Err(Error::NotFound));
}

#[test]
fn breed_splices_dna_and_bumps_the_generation() {
    let mut reg = Registry::new();
    let seed = h(0x42);
    assert_eq!(reg.mint(ALICE, Kitty { id: h(1), dna: h(0x11), price: 0, gen: 3 }), Ok(()));
    assert_eq!(reg.mint(BOB, Kitty { id: h(2), dna: h(0x22), price: 0, gen: 5 }), Ok(()));
    let child_id = reg.breed_kitty(ALICE, &seed, &h(1), &h(2)).unwrap();
    assert_eq!(child_id, next_id(&seed, ALICE, 0));
    let child = reg.kitty(&child_id).unwrap();
    assert_eq!(child.gen, 6);
    assert_eq!(child.price, 0);
    let expected_dna = splice_dna(&h(0x11), &h(0x22), &child_id);
    assert_eq!(child.dna, expected_dna);
    assert_eq!(reg.owner_of(&child_id), Some(ALICE));
    assert_eq!(reg.owned_kitty_count(ALICE), 2);
    assert_eq!(reg.all_kitties_count(), 3);
}
