use pallet_dao::pallet::{Pallet, MAX_DAO_ID};
use pallet_dao::types::{Config, Error, Event, Participant};

const A: u64 = 1;
const B: u64 = 2;
const C: u64 = 3;
const D: u64 = 4;

fn config() -> Config {
    Config { min_name_length: 3, max_name_length: 10, max_members_length: 3, dao_number_generator: 5 }
}

fn hash_of(value: u64) -> [u8; 32] {
    sp_io::hashing::keccak_256(&value.to_le_bytes())
}

fn alpha() -> Pallet {
    let mut p = Pallet::new(config());
    p.create_dao(A, b"alpha".to_vec()).unwrap();
    p.add_member(A, 0, B).unwrap();
    p.add_member(A, 0, C).unwrap();
    p
}

#[test]
fn create_assigns_ids_in_order() {
    let mut p = Pallet::new(config());
    let e = p.create_dao(A, b"alpha".to_vec()).unwrap();
    assert_eq!(e, Event::DAOCreated { owner: A, id: 0, name: b"alpha".to_vec() });
    let e = p.create_dao(B, b"beta".to_vec()).unwrap();
    assert_eq!(e, Event::DAOCreated { owner: B, id: 1, name: b"beta".to_vec() });
    assert_eq!(p.dao_count(), 2);
    assert_eq!(p.lookup_id(&b"beta".to_vec()), Some(1));
    assert_eq!(p.lookup_id(&b"gamma".to_vec()), None);
    assert_eq!(p.lookup_name(0), Some(b"alpha".to_vec()));
    assert_eq!(p.lookup_name(2), None);
    assert_eq!(p.owner_of(1), Some(B));
    assert_eq!(p.owner_of(2), None);
}

#[test]
fn create_rejects_bad_names() {
    let mut p = Pallet::new(config());
    assert_eq!(p.create_dao(A, b"abcdefghijk".to_vec()), Err(Error::TooLong));
    assert_eq!(p.create_dao(A, b"ab".to_vec()), Err(Error::TooShort));
    assert!(p.create_dao(A, b"abc".to_vec()).is_ok());
    assert!(p.create_dao(A, b"abcdefghij".to_vec()).is_ok());
    assert_eq!(p.dao_count(), 2);
}

#[test]
fn duplicate_name_conflicts_for_any_caller() {
    let mut p = Pallet::new(config());
    p.create_dao(A, b"alpha".to_vec()).unwrap();
    assert_eq!(p.create_dao(A, b"alpha".to_vec()), Err(Error::DAOExists));
    assert_eq!(p.create_dao(B, b"alpha".to_vec()), Err(Error::DAOExists));
    assert_eq!(p.dao_count(), 1);
    assert_eq!(p.owner_of(0), Some(A));
}

#[test]
fn ids_saturate_at_the_largest() {
    let mut p = Pallet::new(Config { min_name_length: 1, max_name_length: 10, max_members_length: 3, dao_number_generator: 5 });
    for k in 0..=(MAX_DAO_ID as u32) {
        let name = format!("g{}", k).into_bytes();
        p.create_dao(A, name).unwrap();
    }
    assert_eq!(p.dao_count(), MAX_DAO_ID as usize + 1);
    let e = p.create_dao(B, b"extra".to_vec()).unwrap();
    assert_eq!(e, Event::DAOCreated { owner: B, id: MAX_DAO_ID, name: b"extra".to_vec() });
    assert_eq!(p.dao_count(), MAX_DAO_ID as usize + 1);
    assert_eq!(p.owner_of(MAX_DAO_ID), Some(B));
    assert_eq!(p.lookup_name(MAX_DAO_ID), Some(b"extra".to_vec()));
    assert_eq!(p.lookup_id(&b"extra".to_vec()), Some(MAX_DAO_ID));
    assert_eq!(p.lookup_id(&format!("g{}", MAX_DAO_ID).into_bytes()), Some(MAX_DAO_ID));
}

#[test]
fn only_owner_changes_members() {
    let mut p = alpha();
    assert_eq!(p.add_member(B, 0, D), Err(Error::InvalidOwner));
    assert_eq!(p.remove_member(B, 0, C), Err(Error::InvalidOwner));
    assert_eq!(p.members(0), vec![B, C]);
    assert_eq!(p.remove_member(A, 0, B), Ok(Event::MemberRemoved { id: 0, member_id: B }));
    assert_eq!(p.members(0), vec![C]);
    assert!(!p.is_member(0, B));
}

#[test]
fn member_errors() {
    let mut p = alpha();
    assert_eq!(p.add_member(A, 1, D), Err(Error::DAODoestNotExists));
    assert_eq!(p.remove_member(A, 1, D), Err(Error::DAODoestNotExists));
    assert_eq!(p.add_member(A, 0, B), Err(Error::MemberAlreadyExists));
    assert_eq!(p.remove_member(A, 0, D), Err(Error::MemberDoesNotExists));
    assert_eq!(p.add_member(A, 0, D), Ok(Event::MemberInserted { id: 0, member_id: D }));
    assert_eq!(p.add_member(A, 0, 5), Err(Error::MemberLengthReachedMax));
    assert_eq!(p.members(0), vec![B, C, D]);
    assert_eq!(p.members(7), Vec::<u64>::new());
}

#[test]
fn submit_records_commitment_and_round_start() {
    let mut p = alpha();
    assert_eq!(p.submit_masked_value(D, 0, [1; 32], [2; 32], 10), Err(Error::MemberDoesNotExists));
    assert_eq!(p.submit_masked_value(B, 3, [1; 32], [2; 32], 10), Err(Error::MemberDoesNotExists));
    assert_eq!(p.round_start(0), None);
    assert_eq!(
        p.submit_masked_value(C, 0, [1; 32], [2; 32], 10),
        Ok(Event::MaskedValueReceived { id: 0, member: C })
    );
    assert_eq!(p.submit_masked_value(B, 0, [3; 32], [4; 32], 11), Ok(Event::MaskedValueReceived { id: 0, member: B }));
    assert_eq!(p.round_start(0), Some(10));
    p.submit_masked_value(C, 0, [5; 32], [6; 32], 12).unwrap();
    assert_eq!(p.round_start(0), Some(10));
    assert_eq!(p.commitment(0, C), Some(Participant { account: C, entropy: [5; 32], hash: [6; 32] }));
    assert_eq!(p.commitment(0, B), Some(Participant { account: B, entropy: [3; 32], hash: [4; 32] }));
    assert_eq!(p.commitment(0, D), None);
}

#[test]
fn reveal_errors() {
    let mut p = alpha();
    let h = hash_of(42);
    assert_eq!(p.reveal_value(D, 0, h, 42), Err(Error::MemberDoesNotExists));
    assert_eq!(p.reveal_value(B, 0, h, 43), Err(Error::InvalidHashProvided));
    assert_eq!(p.reveal_value(B, 0, h, 42), Err(Error::NoWinningHash(0)));
    p.submit_masked_value(B, 0, [1; 32], h, 10).unwrap();
    p.on_finalize(10, &vec![9; 32]);
    assert_eq!(p.winning_hash(0), Some(h));
    assert_eq!(p.reveal_value(B, 0, h, 43), Err(Error::InvalidHashProvided));
}

#[test]
fn reveal_with_digest_decides_on_the_digest() {
    let mut p = alpha();
    p.submit_masked_value(B, 0, [1; 32], [7; 32], 10).unwrap();
    p.generate_random_number(0, &vec![0; 32]);
    assert_eq!(p.winning_hash(0), Some([7; 32]));
    assert_eq!(
        p.reveal_with_digest(B, 0, [7; 32], 5, &[7; 32]),
        Ok(Some(Event::ActualValueReceived { id: 0, member: B, hash_bytes: [7; 32], value: 5 }))
    );
    assert_eq!(p.reveal_with_digest(C, 0, [8; 32], 5, &[8; 32]), Ok(None));
    assert_eq!(p.reveal_with_digest(C, 0, [7; 32], 5, &[8; 32]), Err(Error::InvalidHashProvided));
}

#[test]
fn reveal_of_winner_announces_and_repeats() {
    let mut p = alpha();
    let hb = hash_of(1000);
    let hc = hash_of(2000);
    p.submit_masked_value(B, 0, [1; 32], hb, 10).unwrap();
    p.submit_masked_value(C, 0, [2; 32], hc, 11).unwrap();
    let seed = vec![3u8; 32];
    p.on_finalize(12, &seed);
    let w = p.winning_hash(0).unwrap();
    let (winner, value, loser, other) = if w == hb { (B, 1000, C, 2000) } else { (C, 2000, B, 1000) };
    let expected = Event::ActualValueReceived { id: 0, member: winner, hash_bytes: w, value };
    assert_eq!(p.reveal_value(winner, 0, w, value), Ok(Some(expected.clone())));
    assert_eq!(p.reveal_value(winner, 0, w, value), Ok(Some(expected)));
    assert_eq!(p.reveal_value(loser, 0, hash_of(other), other), Ok(None));
}

fn expected_winner(seed: &[u8], entropies: &[[u8; 32]], hashes: &[[u8; 32]]) -> [u8; 32] {
    let mut sorted: Vec<[u8; 32]> = entropies.to_vec();
    sorted.sort();
    sorted.dedup();
    let mut bytes = seed.to_vec();
    for e in &sorted {
        bytes.extend_from_slice(e);
    }
    let digest = sp_io::hashing::keccak_256(&bytes);
    hashes[digest[0] as usize % hashes.len()]
}

#[test]
fn round_runs_selection_while_open() {
    let mut p = alpha();
    let e1 = [0x11; 32];
    let e2 = [0x05; 32];
    let hb = hash_of(1);
    let hc = hash_of(2);
    p.submit_masked_value(B, 0, e1, hb, 10).unwrap();
    p.on_finalize(10, &vec![10; 32]);
    assert_eq!(p.winning_hash(0), Some(hb));
    p.submit_masked_value(C, 0, e2, hc, 11).unwrap();
    assert_eq!(p.round_start(0), Some(10));
    for tick in 11..15u64 {
        let seed = vec![tick as u8; 32];
        p.on_finalize(tick, &seed);
        assert_eq!(p.winning_hash(0), Some(expected_winner(&seed, &[e1, e2], &[hb, hc])));
    }
    let before = p.winning_hash(0);
    for tick in 15..40u64 {
        p.on_finalize(tick, &vec![tick as u8; 32]);
        assert_eq!(p.winning_hash(0), before);
    }
}

#[test]
fn winner_depends_on_commitments_not_history() {
    let seed = vec![0xAB; 32];
    let mut p = alpha();
    p.submit_masked_value(B, 0, [9; 32], [1; 32], 10).unwrap();
    p.submit_masked_value(C, 0, [4; 32], [2; 32], 11).unwrap();
    p.on_finalize(12, &seed);
    let mut q = alpha();
    q.submit_masked_value(C, 0, [8; 32], [8; 32], 10).unwrap();
    q.submit_masked_value(C, 0, [4; 32], [2; 32], 10).unwrap();
    q.submit_masked_value(B, 0, [9; 32], [1; 32], 11).unwrap();
    q.on_finalize(5, &vec![1; 32]);
    q.on_finalize(12, &seed);
    assert!(p.winning_hash(0).is_some());
    assert_eq!(p.winning_hash(0), q.winning_hash(0));
    assert_eq!(p.winning_hash(0), Some(expected_winner(&seed, &[[9; 32], [4; 32]], &[[1; 32], [2; 32]])));
}

#[test]
fn groups_without_round_are_untouched() {
    let mut p = alpha();
    p.create_dao(D, b"beta".to_vec()).unwrap();
    p.add_member(D, 1, D).unwrap();
    p.on_finalize(3, &vec![1; 32]);
    assert_eq!(p.winning_hash(0), None);
    assert_eq!(p.winning_hash(1), None);
    p.generate_random_number(1, &vec![1; 32]);
    assert_eq!(p.winning_hash(1), None);
}
