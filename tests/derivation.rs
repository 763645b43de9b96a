use anchor_lang::prelude::Pubkey;
use cardinal_metadata_generator::derivation::METADATA_CONFIG_SEED;

const PROGRAM: [u8; 32] = [7u8; 32];

#[test]
fn derive_is_deterministic() {
    let a = cardinal_metadata_generator::derivation::derive(METADATA_CONFIG_SEED, "collection", &PROGRAM);
    let b = cardinal_metadata_generator::derivation::derive(METADATA_CONFIG_SEED, "collection", &PROGRAM);
    assert!(a.is_some());
    assert_eq!(a, b);
}

#[test]
fn derive_matches_program_address_search() {
    let (address, bump) =
        cardinal_metadata_generator::derivation::derive(METADATA_CONFIG_SEED, "collection", &PROGRAM).unwrap();
    let (expected, expected_bump) = Pubkey::find_program_address(
        &[b"metadata-config", b"collection"],
        &Pubkey::new_from_array(PROGRAM),
    );
    assert_eq!(address, expected.to_bytes());
    assert_eq!(bump, expected_bump);
    assert_ne!(address, PROGRAM);
}

#[test]
fn derive_depends_on_program() {
    let a = cardinal_metadata_generator::derivation::derive(METADATA_CONFIG_SEED, "collection", &PROGRAM).unwrap();
    let b = cardinal_metadata_generator::derivation::derive(METADATA_CONFIG_SEED, "collection", &[8u8; 32]).unwrap();
    assert_ne!(a.0, b.0);
}

#[test]
fn distinct_seeds_give_distinct_addresses() {
    let mut seen: Vec<[u8; 32]> = Vec::new();
    for i in 0..200u32 {
        let seed = format!("seed-{}", i);
        let (address, _) =
            cardinal_metadata_generator::derivation::derive(METADATA_CONFIG_SEED, &seed, &PROGRAM).unwrap();
        assert!(!seen.contains(&address));
        seen.push(address);
    }
}

#[test]
fn overlong_seed_exhausts_derivation() {
    let seed = "x".repeat(33);
    assert_eq!(cardinal_metadata_generator::derivation::derive(METADATA_CONFIG_SEED, &seed, &PROGRAM), None);
    let seed = "x".repeat(32);
    assert!(cardinal_metadata_generator::derivation::derive(METADATA_CONFIG_SEED, &seed, &PROGRAM).is_some());
}
