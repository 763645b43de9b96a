use anchor_lang::prelude::Pubkey;
use cardinal_metadata_generator::layout::METADATA_CONFIG_DISCRIMINATOR;
use cardinal_metadata_generator::legacy::{
    create_metadata_config_v1, derive_v1, CreateMetadataConfigV1Ix, MetadataConfigV1, ACCOUNT_SPACE_V1,
};
use cardinal_metadata_generator::registry::{ConfigError, CreateMetadatConfigCtx, Ledger};

const PROGRAM: [u8; 32] = [7u8; 32];
const PAYER: [u8; 32] = [9u8; 32];
const RENT: u64 = 2_672_640;

fn v1_request(seed: &str, bump: u8, fields: Vec<String>) -> CreateMetadataConfigV1Ix {
    CreateMetadataConfigV1Ix {
        seed_string: seed.to_string(),
        bump,
        program_id: [2u8; 32],
        seed_prefix: None,
        seed_postfix: None,
        fields,
    }
}

fn v1_ctx(target: [u8; 32]) -> CreateMetadatConfigCtx {
    CreateMetadatConfigCtx {
        program_id: PROGRAM,
        metadata_config: target,
        mint_metadata: [3u8; 32],
        payer: PAYER,
        payer_is_signer: true,
    }
}

fn funded() -> Ledger {
    let mut ledger = Ledger::new();
    assert!(ledger.open_account(PAYER, [0u8; 32], 10_000_000));
    ledger
}

#[test]
fn v1_derivation_places_prefix_and_postfix_around_seed() {
    let prefix = Some(b"pre".to_vec());
    let postfix = Some(b"post".to_vec());
    let (address, bump) = derive_v1("collection", &prefix, &postfix, &PROGRAM).unwrap();
    let (expected, expected_bump) = Pubkey::find_program_address(
        &[b"metadata-config", b"pre", b"collection", b"post"],
        &Pubkey::new_from_array(PROGRAM),
    );
    assert_eq!(address, expected.to_bytes());
    assert_eq!(bump, expected_bump);
    let plain = derive_v1("collection", &None, &None, &PROGRAM).unwrap();
    let v2 = cardinal_metadata_generator::derivation::derive("metadata-config", "collection", &PROGRAM).unwrap();
    assert_eq!(plain, v2);
    assert_ne!(plain.0, address);
}

#[test]
fn v1_layout_is_exact() {
    let config = MetadataConfigV1 {
        program_id: [2u8; 32],
        seed_prefix: Some(vec![0xaa, 0xbb]),
        seed_postfix: None,
        fields: vec!["name".to_string()],
        uri: "u".to_string(),
        attrs: vec![],
    };
    let data = config.try_serialize().unwrap();
    assert_eq!(data.len(), ACCOUNT_SPACE_V1);
    let mut expected: Vec<u8> = METADATA_CONFIG_DISCRIMINATOR.to_vec();
    expected.extend_from_slice(&[2u8; 32]);
    expected.extend_from_slice(&[1, 2, 0, 0, 0, 0xaa, 0xbb]);
    expected.extend_from_slice(&[0]);
    expected.extend_from_slice(&[1, 0, 0, 0, 4, 0, 0, 0, b'n', b'a', b'm', b'e']);
    expected.extend_from_slice(&[1, 0, 0, 0, b'u']);
    expected.extend_from_slice(&[0, 0, 0, 0]);
    assert_eq!(&data[..expected.len()], &expected[..]);
    assert!(data[expected.len()..].iter().all(|b| *b == 0));
}

#[test]
fn v1_capacity_boundary_exact_fit_succeeds() {
    let mut ledger = funded();
    let (target, bump) = derive_v1("collection", &None, &None, &PROGRAM).unwrap();
    let ix = v1_request("collection", bump, vec!["f".repeat(198)]);
    assert_eq!(create_metadata_config_v1(&mut ledger, &v1_ctx(target), ix, RENT), Ok(()));
    assert_eq!(ledger.data(&target).unwrap().len(), 256);
    assert_eq!(ledger.lamports(&PAYER), Some(10_000_000 - RENT));
}

#[test]
fn v1_capacity_boundary_one_byte_over_fails() {
    let mut ledger = funded();
    let (target, bump) = derive_v1("collection", &None, &None, &PROGRAM).unwrap();
    let ix = v1_request("collection", bump, vec!["f".repeat(199)]);
    assert_eq!(
        create_metadata_config_v1(&mut ledger, &v1_ctx(target), ix, RENT),
        Err(ConfigError::CapacityExceeded)
    );
    assert!(!ledger.contains(&target));
    assert_eq!(ledger.lamports(&PAYER), Some(10_000_000));
}

#[test]
fn v1_wrong_bump_fails_invalid_seeds() {
    let mut ledger = funded();
    let (target, bump) = derive_v1("collection", &None, &None, &PROGRAM).unwrap();
    let ix = v1_request("collection", bump.wrapping_sub(1), vec![]);
    assert_eq!(
        create_metadata_config_v1(&mut ledger, &v1_ctx(target), ix, RENT),
        Err(ConfigError::InvalidSeeds)
    );
    assert!(!ledger.contains(&target));
}

#[test]
fn v1_second_creation_fails_already_initialized() {
    let mut ledger = funded();
    let (target, bump) = derive_v1("collection", &None, &None, &PROGRAM).unwrap();
    assert_eq!(
        create_metadata_config_v1(&mut ledger, &v1_ctx(target), v1_request("collection", bump, vec![]), RENT),
        Ok(())
    );
    assert_eq!(
        create_metadata_config_v1(&mut ledger, &v1_ctx(target), v1_request("collection", bump, vec![]), RENT),
        Err(ConfigError::AlreadyInitialized)
    );
}
