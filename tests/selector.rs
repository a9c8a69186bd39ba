use pallet_dao::selector::{pick_winner, select_winner, sorted_entropies, upsert_participant};
use pallet_dao::types::Participant;

fn part(account: u64, e: u8, h: u8) -> Participant {
    Participant { account, entropy: [e; 32], hash: [h; 32] }
}

#[test]
fn upsert_keeps_accounts_ascending() {
    let mut v: Vec<Participant> = Vec::new();
    upsert_participant(&mut v, part(5, 1, 1));
    upsert_participant(&mut v, part(2, 2, 2));
    upsert_participant(&mut v, part(9, 3, 3));
    upsert_participant(&mut v, part(5, 4, 4));
    assert_eq!(v, vec![part(2, 2, 2), part(5, 4, 4), part(9, 3, 3)]);
}

#[test]
fn entropies_sorted_and_distinct() {
    let mut low = [0u8; 32];
    low[31] = 1;
    let mut high = [0u8; 32];
    high[0] = 1;
    let v = vec![
        Participant { account: 1, entropy: high, hash: [0; 32] },
        Participant { account: 2, entropy: low, hash: [0; 32] },
        Participant { account: 3, entropy: high, hash: [0; 32] },
    ];
    assert_eq!(sorted_entropies(&v), vec![low, high]);
    assert_eq!(sorted_entropies(&Vec::new()), Vec::<[u8; 32]>::new());
}

#[test]
fn pick_uses_first_digest_byte() {
    let v = vec![part(1, 0, 10), part(2, 0, 20), part(3, 0, 30)];
    let mut d = [0u8; 32];
    d[0] = 7;
    assert_eq!(pick_winner(&d, &v), Some([20; 32]));
    d[0] = 255;
    assert_eq!(pick_winner(&d, &v), Some([10; 32]));
    assert_eq!(pick_winner(&d, &Vec::new()), None);
}

#[test]
fn select_hashes_seed_then_entropies() {
    let v = vec![part(1, 9, 10), part(2, 3, 20), part(3, 9, 30)];
    let seed = vec![1u8, 2, 3];
    let mut bytes = seed.clone();
    bytes.extend_from_slice(&[3; 32]);
    bytes.extend_from_slice(&[9; 32]);
    let digest = sp_io::hashing::keccak_256(&bytes);
    assert_ne!(digest.to_vec(), bytes);
    let expected = [[10u8; 32], [20; 32], [30; 32]][digest[0] as usize % 3];
    assert_eq!(select_winner(&seed, &v), Some(expected));
    assert_eq!(select_winner(&seed, &Vec::new()), None);
}
