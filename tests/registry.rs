use cardinal_metadata_generator::derivation::METADATA_CONFIG_SEED;
use cardinal_metadata_generator::layout::Attribute;
use cardinal_metadata_generator::registry::{
    create_metadata_config, ConfigError, CreateMetadatConfigCtx, CreateMetadataConfigIx, Ledger,
};

const PROGRAM: [u8; 32] = [7u8; 32];
const PAYER: [u8; 32] = [9u8; 32];
const SYSTEM: [u8; 32] = [0u8; 32];
const RENT: u64 = 4_454_400;

fn target(seed: &str) -> ([u8; 32], u8) {
    cardinal_metadata_generator::derivation::derive(METADATA_CONFIG_SEED, seed, &PROGRAM).unwrap()
}

fn ctx_for(seed: &str) -> CreateMetadatConfigCtx {
    CreateMetadatConfigCtx {
        program_id: PROGRAM,
        metadata_config: target(seed).0,
        mint_metadata: [3u8; 32],
        payer: PAYER,
        payer_is_signer: true,
    }
}

fn funded(lamports: u64) -> Ledger {
    let mut ledger = Ledger::new();
    assert!(ledger.open_account(PAYER, SYSTEM, lamports));
    ledger
}

fn mint_attribute() -> Attribute {
    Attribute {
        address: [5u8; 32],
        account_type: "mint".to_string(),
        fields: vec!["name".to_string(), "symbol".to_string()],
    }
}

fn request(seed: &str, attributes: Vec<Attribute>) -> CreateMetadataConfigIx {
    CreateMetadataConfigIx { seed_string: seed.to_string(), bump: None, attributes }
}

#[test]
fn creation_stores_record_and_debits_payer() {
    let mut ledger = funded(10_000_000);
    let ctx = ctx_for("collection");
    assert_eq!(create_metadata_config(&mut ledger, &ctx, request("collection", vec![mint_attribute()]), RENT), Ok(()));
    assert_eq!(ledger.lamports(&PAYER), Some(10_000_000 - RENT));
    assert_eq!(ledger.lamports(&ctx.metadata_config), Some(RENT));
    assert_eq!(ledger.owner(&ctx.metadata_config), Some(PROGRAM));
    assert_eq!(ledger.data(&ctx.metadata_config).unwrap().len(), 512);
}

#[test]
fn created_record_reads_back() {
    let mut ledger = funded(10_000_000);
    let ctx = ctx_for("collection");
    create_metadata_config(&mut ledger, &ctx, request("collection", vec![mint_attribute()]), RENT).unwrap();
    let config = ledger.read_metadata_config(&ctx.metadata_config, &PROGRAM).unwrap();
    assert_eq!(config.base_metadata_uri, "");
    assert_eq!(config.attributes.len(), 1);
    assert_eq!(config.attributes[0].address, [5u8; 32]);
    assert_eq!(config.attributes[0].account_type, "mint");
    assert_eq!(config.attributes[0].fields, vec!["name".to_string(), "symbol".to_string()]);
    assert!(ledger.read_metadata_config(&ctx.metadata_config, &[8u8; 32]).is_none());
    assert!(ledger.read_metadata_config(&PAYER, &PROGRAM).is_none());
}

#[test]
fn second_creation_fails_already_initialized() {
    let mut ledger = funded(10_000_000);
    let ctx = ctx_for("collection");
    create_metadata_config(&mut ledger, &ctx, request("collection", vec![mint_attribute()]), RENT).unwrap();
    let other = Attribute { address: [6u8; 32], account_type: "edition".to_string(), fields: vec![] };
    assert_eq!(
        create_metadata_config(&mut ledger, &ctx, request("collection", vec![other]), RENT),
        Err(ConfigError::AlreadyInitialized)
    );
    assert_eq!(ledger.lamports(&PAYER), Some(10_000_000 - RENT));
    let config = ledger.read_metadata_config(&ctx.metadata_config, &PROGRAM).unwrap();
    assert_eq!(config.attributes.len(), 1);
    assert_eq!(config.attributes[0].account_type, "mint");
}

#[test]
fn wrong_bump_fails_invalid_seeds() {
    let mut ledger = funded(10_000_000);
    let ctx = ctx_for("collection");
    let (_, bump) = target("collection");
    let mut ix = request("collection", vec![mint_attribute()]);
    ix.bump = Some(bump.wrapping_sub(1));
    assert_eq!(create_metadata_config(&mut ledger, &ctx, ix, RENT), Err(ConfigError::InvalidSeeds));
    assert!(!ledger.contains(&ctx.metadata_config));
    let mut ix = request("collection", vec![mint_attribute()]);
    ix.bump = Some(bump);
    assert_eq!(create_metadata_config(&mut ledger, &ctx, ix, RENT), Ok(()));
}

#[test]
fn wrong_target_fails_invalid_seeds() {
    let mut ledger = funded(10_000_000);
    let ctx = ctx_for("other");
    assert_eq!(
        create_metadata_config(&mut ledger, &ctx, request("collection", vec![]), RENT),
        Err(ConfigError::InvalidSeeds)
    );
    assert!(!ledger.contains(&ctx.metadata_config));
}

#[test]
fn unsigned_payer_is_refused() {
    let mut ledger = funded(10_000_000);
    let mut ctx = ctx_for("collection");
    ctx.payer_is_signer = false;
    assert_eq!(
        create_metadata_config(&mut ledger, &ctx, request("collection", vec![]), RENT),
        Err(ConfigError::PayerNotSigner)
    );
    assert!(!ledger.contains(&ctx.metadata_config));
}

#[test]
fn insufficient_funds_leaves_ledger_unchanged() {
    let mut ledger = funded(RENT - 1);
    let ctx = ctx_for("collection");
    assert_eq!(
        create_metadata_config(&mut ledger, &ctx, request("collection", vec![]), RENT),
        Err(ConfigError::InsufficientFunds)
    );
    assert!(!ledger.contains(&ctx.metadata_config));
    assert_eq!(ledger.lamports(&PAYER), Some(RENT - 1));
    let mut empty = Ledger::new();
    assert_eq!(
        create_metadata_config(&mut empty, &ctx, request("collection", vec![]), RENT),
        Err(ConfigError::InsufficientFunds)
    );
}

#[test]
fn exhausted_derivation_is_reported() {
    let mut ledger = funded(10_000_000);
    let seed = "s".repeat(40);
    let ctx = CreateMetadatConfigCtx {
        program_id: PROGRAM,
        metadata_config: [4u8; 32],
        mint_metadata: [3u8; 32],
        payer: PAYER,
        payer_is_signer: true,
    };
    assert_eq!(
        create_metadata_config(&mut ledger, &ctx, request(&seed, vec![]), RENT),
        Err(ConfigError::DerivationExhausted)
    );
}

fn sized_request(field_len: usize) -> CreateMetadataConfigIx {
    let attribute = Attribute {
        address: [5u8; 32],
        account_type: "mint".to_string(),
        fields: vec!["f".repeat(field_len)],
    };
    request("collection", vec![attribute])
}

#[test]
fn capacity_boundary_exact_fit_succeeds() {
    let mut ledger = funded(10_000_000);
    let ctx = ctx_for("collection");
    assert_eq!(create_metadata_config(&mut ledger, &ctx, sized_request(448), RENT), Ok(()));
    let config = ledger.read_metadata_config(&ctx.metadata_config, &PROGRAM).unwrap();
    assert_eq!(config.attributes[0].fields[0].len(), 448);
}

#[test]
fn capacity_boundary_one_byte_over_fails() {
    let mut ledger = funded(10_000_000);
    let ctx = ctx_for("collection");
    assert_eq!(
        create_metadata_config(&mut ledger, &ctx, sized_request(449), RENT),
        Err(ConfigError::CapacityExceeded)
    );
    assert!(!ledger.contains(&ctx.metadata_config));
    assert_eq!(ledger.lamports(&PAYER), Some(10_000_000));
}

#[test]
fn open_account_refuses_existing_address() {
    let mut ledger = funded(5);
    assert!(!ledger.open_account(PAYER, SYSTEM, 7));
    assert_eq!(ledger.lamports(&PAYER), Some(5));
    assert_eq!(ledger.lamports(&[1u8; 32]), None);
}
