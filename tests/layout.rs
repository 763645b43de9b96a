use cardinal_metadata_generator::layout::{
    Attribute, MetadataConfig, ACCOUNT_SPACE, METADATA_CONFIG_DISCRIMINATOR,
};

fn sample() -> MetadataConfig {
    MetadataConfig {
        base_metadata_uri: "ab".to_string(),
        attributes: vec![Attribute {
            address: [1u8; 32],
            account_type: "mint".to_string(),
            fields: vec!["name".to_string(), "symbol".to_string()],
        }],
    }
}

#[test]
fn serialized_layout_is_exact() {
    let data = sample().try_serialize().unwrap();
    assert_eq!(data.len(), ACCOUNT_SPACE);
    let mut expected: Vec<u8> = METADATA_CONFIG_DISCRIMINATOR.to_vec();
    expected.extend_from_slice(&[2, 0, 0, 0, b'a', b'b']);
    expected.extend_from_slice(&[1, 0, 0, 0]);
    expected.extend_from_slice(&[1u8; 32]);
    expected.extend_from_slice(&[4, 0, 0, 0, b'm', b'i', b'n', b't']);
    expected.extend_from_slice(&[2, 0, 0, 0]);
    expected.extend_from_slice(&[4, 0, 0, 0, b'n', b'a', b'm', b'e']);
    expected.extend_from_slice(&[6, 0, 0, 0, b's', b'y', b'm', b'b', b'o', b'l']);
    assert_eq!(&data[..expected.len()], &expected[..]);
    assert!(data[expected.len()..].iter().all(|b| *b == 0));
}

#[test]
fn serialize_then_deserialize() {
    let data = sample().try_serialize().unwrap();
    let back = MetadataConfig::try_deserialize(&data).unwrap();
    assert_eq!(back.base_metadata_uri, "ab");
    assert_eq!(back.attributes.len(), 1);
    assert_eq!(back.attributes[0].address, [1u8; 32]);
    assert_eq!(back.attributes[0].account_type, "mint");
    assert_eq!(back.attributes[0].fields, vec!["name".to_string(), "symbol".to_string()]);
}

#[test]
fn non_ascii_strings_round_trip() {
    let config = MetadataConfig {
        base_metadata_uri: "héllo ✓".to_string(),
        attributes: vec![],
    };
    let data = config.try_serialize().unwrap();
    assert_eq!(&data[8..12], &[10, 0, 0, 0]);
    let back = MetadataConfig::try_deserialize(&data).unwrap();
    assert_eq!(back.base_metadata_uri, "héllo ✓");
}

#[test]
fn oversized_config_is_not_serialized() {
    let config = MetadataConfig { base_metadata_uri: "u".repeat(497), attributes: vec![] };
    assert!(config.try_serialize().is_none());
    let config = MetadataConfig { base_metadata_uri: "u".repeat(496), attributes: vec![] };
    assert_eq!(config.try_serialize().unwrap().len(), 512);
}

#[test]
fn wrong_discriminator_is_rejected() {
    let mut data = sample().try_serialize().unwrap();
    data[0] ^= 1;
    assert!(MetadataConfig::try_deserialize(&data).is_none());
    assert!(MetadataConfig::try_deserialize(&vec![0u8; 4]).is_none());
}

#[test]
fn truncated_or_invalid_data_is_rejected() {
    let data = sample().try_serialize().unwrap();
    assert!(MetadataConfig::try_deserialize(&data[..20].to_vec()).is_none());
    let mut bad = data.clone();
    bad[12] = 0xff;
    assert!(MetadataConfig::try_deserialize(&bad).is_none());
}

#[test]
fn default_attribute_is_empty() {
    let a = Attribute::default();
    assert_eq!(a.address, [0u8; 32]);
    assert_eq!(a.account_type, "");
    assert!(a.fields.is_empty());
}
