//! The first generation of the record: it keeps the owning program, an
//! optional seed prefix and postfix placed around the seed string when the
//! address is derived, and a flat list of schema field names, in an account
//! of 256 bytes. Its creation request must carry the bump.

use vstd::prelude::*;
use vstd::string::StringSliceAdditionalSpecFns;
use vstd::utf8::encode_utf8;
use crate::derivation::{
    find_program_address_of, found_view, lemma_search_outcome, str_to_bytes,
    try_find_program_address, METADATA_CONFIG_SEED,
};
use crate::layout::{
    attributes_view, attrs_bytes, str_bytes, strs_bytes, write_attrs, write_str, write_strs, Attribute,
    AttributeView, DISCRIMINATOR_LEN, METADATA_CONFIG_DISCRIMINATOR,
};
use crate::registry::{same_address, AccountView, ConfigError, CreateMetadatConfigCtx, Ledger};

verus! {

/// Size in bytes of the account that holds a first-generation config.
pub const ACCOUNT_SPACE_V1: usize = 256;

/// The first-generation record.
#[derive(Clone, Debug)]
pub struct MetadataConfigV1 {
    pub program_id: [u8; 32],
    pub seed_prefix: Option<Vec<u8>>,
    pub seed_postfix: Option<Vec<u8>>,
    pub fields: Vec<String>,
    pub uri: String,
    pub attrs: Vec<Attribute>,
}

/// A first-generation config as plain values.
pub struct ConfigV1View {
    pub program_id: Seq<u8>,
    pub seed_prefix: Option<Seq<u8>>,
    pub seed_postfix: Option<Seq<u8>>,
    pub fields: Seq<Seq<char>>,
    pub uri: Seq<char>,
    pub attrs: Seq<AttributeView>,
}

/// Optional bytes as plain values.
pub open spec fn opt_bytes_view(o: Option<Vec<u8>>) -> Option<Seq<u8>> {
    match o {
        Some(v) => Some(v@),
        None => None,
    }
}

impl View for MetadataConfigV1 {
    type V = ConfigV1View;

    open spec fn view(&self) -> ConfigV1View {
        ConfigV1View {
            program_id: self.program_id@,
            seed_prefix: opt_bytes_view(self.seed_prefix),
            seed_postfix: opt_bytes_view(self.seed_postfix),
            fields: self.fields.deep_view(),
            uri: self.uri@,
            attrs: attributes_view(self.attrs@),
        }
    }
}

/// Optional bytes: a 0 tag, or a 1 tag followed by the length and the bytes.
pub open spec fn option_bytes(o: Option<Seq<u8>>) -> Seq<u8> {
    match o {
        None => seq![0u8],
        Some(b) => seq![1u8] + crate::layout::len_prefix(b.len()) + b,
    }
}

/// The serialized fields of a first-generation config.
pub open spec fn config_v1_bytes(c: ConfigV1View) -> Seq<u8> {
    c.program_id + option_bytes(c.seed_prefix) + option_bytes(c.seed_postfix) + strs_bytes(c.fields)
        + str_bytes(c.uri) + attrs_bytes(c.attrs)
}

/// Whether the config, after its discriminator, fits in its account.
pub open spec fn fits_account_v1(c: ConfigV1View) -> bool {
    DISCRIMINATOR_LEN + config_v1_bytes(c).len() <= ACCOUNT_SPACE_V1
}

/// The full account data holding a first-generation config.
pub open spec fn account_image_v1(c: ConfigV1View) -> Seq<u8> {
    METADATA_CONFIG_DISCRIMINATOR@ + config_v1_bytes(c) + Seq::new(
        (ACCOUNT_SPACE_V1 - DISCRIMINATOR_LEN - config_v1_bytes(c).len()) as nat,
        |i: int| 0u8,
    )
}

/// Appends optional bytes with their tag.
fn write_option_bytes(out: &mut Vec<u8>, o: &Option<Vec<u8>>)
    ensures
        final(out)@ == old(out)@ + option_bytes(opt_bytes_view(*o)),
{
    match o {
        None => {
            out.push(0u8);
            assert(out@ =~= old(out)@ + option_bytes(opt_bytes_view(*o)));
        },
        Some(b) => {
            out.push(1u8);
            let n = b.len() as u32;
            out.push((n % 256) as u8);
            out.push(((n / 256) % 256) as u8);
            out.push(((n / 65536) % 256) as u8);
            out.push(((n / 16777216) % 256) as u8);
            let ghost start = out@;
            let mut i: usize = 0;
            while i < b.len()
                invariant
                    i <= b@.len(),
                    out@ == start + b@.subrange(0, i as int),
                decreases b@.len() - i,
            {
                out.push(b[i]);
                i += 1;
                assert(out@ =~= start + b@.subrange(0, i as int));
            }
            assert(b@.subrange(0, b@.len() as int) =~= b@);
            assert(out@ =~= old(out)@ + option_bytes(opt_bytes_view(*o)));
        },
    }
}

impl MetadataConfigV1 {
    /// The account data that holds this config, or `None` when the
    /// discriminator and the serialized fields exceed 256 bytes.
    pub fn try_serialize(&self) -> (r: Option<Vec<u8>>)
        ensures
            fits_account_v1(self@) ==> (r matches Some(data) && data@ == account_image_v1(self@)),
            !fits_account_v1(self@) ==> r is None,
    {
        let mut out: Vec<u8> = Vec::new();
        let mut i: usize = 0;
        while i < DISCRIMINATOR_LEN
            invariant
                i <= DISCRIMINATOR_LEN,
                out@ == METADATA_CONFIG_DISCRIMINATOR@.subrange(0, i as int),
            decreases DISCRIMINATOR_LEN - i,
        {
            out.push(METADATA_CONFIG_DISCRIMINATOR[i]);
            i += 1;
            assert(out@ =~= METADATA_CONFIG_DISCRIMINATOR@.subrange(0, i as int));
        }
        let mut j: usize = 0;
        while j < 32
            invariant
                j <= 32,
                out@ == METADATA_CONFIG_DISCRIMINATOR@ + self.program_id@.subrange(0, j as int),
            decreases 32 - j,
        {
            out.push(self.program_id[j]);
            j += 1;
            assert(out@ =~= METADATA_CONFIG_DISCRIMINATOR@ + self.program_id@.subrange(0, j as int));
        }
        assert(self.program_id@.subrange(0, 32) =~= self.program_id@);
        write_option_bytes(&mut out, &self.seed_prefix);
        write_option_bytes(&mut out, &self.seed_postfix);
        write_strs(&mut out, &self.fields);
        write_str(&mut out, &self.uri);
        write_attrs(&mut out, &self.attrs);
        assert(out@ =~= METADATA_CONFIG_DISCRIMINATOR@ + config_v1_bytes(self@));
        if out.len() > ACCOUNT_SPACE_V1 {
            return None;
        }
        let ghost filled = out@;
        while out.len() < ACCOUNT_SPACE_V1
            invariant
                filled.len() <= out@.len() <= ACCOUNT_SPACE_V1,
                out@.subrange(0, filled.len() as int) == filled,
                forall|k: int| filled.len() <= k < out@.len() ==> out@[k] == 0u8,
            decreases ACCOUNT_SPACE_V1 - out@.len(),
        {
            out.push(0u8);
        }
        assert(out@ =~= account_image_v1(self@));
        Some(out)
    }
}

/// A first-generation creation request.
#[derive(Clone, Debug)]
pub struct CreateMetadataConfigV1Ix {
    pub seed_string: String,
    pub bump: u8,
    pub program_id: [u8; 32],
    pub seed_prefix: Option<Vec<u8>>,
    pub seed_postfix: Option<Vec<u8>>,
    pub fields: Vec<String>,
}

/// The seeds of a first-generation address: the domain prefix, the seed
/// prefix if any, the seed string, the seed postfix if any.
pub open spec fn seeds_v1(seed_string: Seq<u8>, prefix: Option<Seq<u8>>, postfix: Option<Seq<u8>>) -> Seq<Seq<u8>> {
    let head = seq![METADATA_CONFIG_SEED.spec_bytes()];
    let with_prefix = match prefix {
        Some(p) => head.push(p),
        None => head,
    };
    let with_seed = with_prefix.push(seed_string);
    match postfix {
        Some(p) => with_seed.push(p),
        None => with_seed,
    }
}

/// The record that a first-generation request writes.
pub open spec fn initial_config_v1(
    program_id: Seq<u8>,
    prefix: Option<Seq<u8>>,
    postfix: Option<Seq<u8>>,
    fields: Seq<Seq<char>>,
) -> ConfigV1View {
    ConfigV1View {
        program_id,
        seed_prefix: prefix,
        seed_postfix: postfix,
        fields,
        uri: Seq::empty(),
        attrs: Seq::empty(),
    }
}

/// The ledger after a first-generation creation request, or its error.
pub open spec fn create_outcome_v1(
    ledger: Map<Seq<u8>, AccountView>,
    ctx: CreateMetadatConfigCtx,
    seed_string: Seq<char>,
    bump: u8,
    program_id: Seq<u8>,
    prefix: Option<Seq<u8>>,
    postfix: Option<Seq<u8>>,
    fields: Seq<Seq<char>>,
    rent: u64,
) -> Result<Map<Seq<u8>, AccountView>, ConfigError> {
    let target = ctx.metadata_config@;
    let payer = ctx.payer@;
    let config = initial_config_v1(program_id, prefix, postfix, fields);
    if ledger.contains_key(target) {
        Err(ConfigError::AlreadyInitialized)
    } else {
        match find_program_address_of(seeds_v1(encode_utf8(seed_string), prefix, postfix), ctx.program_id@) {
            None => Err(ConfigError::DerivationExhausted),
            Some((address, found)) => {
                if address != target || bump != found {
                    Err(ConfigError::InvalidSeeds)
                } else if !ctx.payer_is_signer {
                    Err(ConfigError::PayerNotSigner)
                } else if !ledger.contains_key(payer) || ledger[payer].lamports < rent {
                    Err(ConfigError::InsufficientFunds)
                } else if !fits_account_v1(config) {
                    Err(ConfigError::CapacityExceeded)
                } else {
                    Ok(
                        ledger.insert(
                            payer,
                            AccountView { lamports: (ledger[payer].lamports - rent) as u64, ..ledger[payer] },
                        ).insert(
                            target,
                            AccountView { owner: ctx.program_id@, lamports: rent, data: account_image_v1(config) },
                        ),
                    )
                }
            },
        }
    }
}

/// Clones optional bytes.
fn clone_option_bytes(o: &Option<Vec<u8>>) -> (r: Option<Vec<u8>>)
    ensures
        opt_bytes_view(r) == opt_bytes_view(*o),
{
    match o {
        None => None,
        Some(b) => {
            let mut c: Vec<u8> = Vec::new();
            let mut i: usize = 0;
            while i < b.len()
                invariant
                    i <= b@.len(),
                    c@ == b@.subrange(0, i as int),
                decreases b@.len() - i,
            {
                c.push(b[i]);
                i += 1;
                assert(c@ =~= b@.subrange(0, i as int));
            }
            assert(c@ =~= b@);
            Some(c)
        },
    }
}

/// Derives the address and bump of a first-generation record.
pub fn derive_v1(
    seed_string: &str,
    seed_prefix: &Option<Vec<u8>>,
    seed_postfix: &Option<Vec<u8>>,
    program_id: &[u8; 32],
) -> (r: Option<([u8; 32], u8)>)
    ensures
        found_view(r) == find_program_address_of(
            seeds_v1(seed_string.spec_bytes(), opt_bytes_view(*seed_prefix), opt_bytes_view(*seed_postfix)),
            program_id@,
        ),
{
    let mut seeds: Vec<Vec<u8>> = Vec::new();
    let domain = str_to_bytes(METADATA_CONFIG_SEED);
    assert(domain.deep_view() =~= domain@);
    seeds.push(domain);
    let ghost s0 = seeds.deep_view();
    match clone_option_bytes(seed_prefix) {
        Some(p) => {
            assert(p.deep_view() =~= p@);
            seeds.push(p);
        },
        None => {},
    }
    let seed = str_to_bytes(seed_string);
    assert(seed.deep_view() =~= seed@);
    seeds.push(seed);
    match clone_option_bytes(seed_postfix) {
        Some(p) => {
            assert(p.deep_view() =~= p@);
            seeds.push(p);
        },
        None => {},
    }
    assert(seeds.deep_view() =~= seeds_v1(
        seed_string.spec_bytes(),
        opt_bytes_view(*seed_prefix),
        opt_bytes_view(*seed_postfix),
    ));
    let r = try_find_program_address(&seeds, program_id);
    proof {
        lemma_search_outcome(seeds.deep_view(), program_id@, r);
    }
    r
}

/// Creates a first-generation record at the derived address named by
/// `ctx`, funded by the payer with `rent` lamports. Every check comes before
/// any change: on an error the ledger is left as it was.
pub fn create_metadata_config_v1(
    ledger: &mut Ledger,
    ctx: &CreateMetadatConfigCtx,
    ix: CreateMetadataConfigV1Ix,
    rent: u64,
) -> (r: Result<(), ConfigError>)
    ensures
        r matches Ok(()) ==> create_outcome_v1(
            old(ledger)@, *ctx, ix.seed_string@, ix.bump, ix.program_id@, opt_bytes_view(ix.seed_prefix),
            opt_bytes_view(ix.seed_postfix), ix.fields.deep_view(), rent,
        ) == Ok::<Map<Seq<u8>, AccountView>, ConfigError>(final(ledger)@),
        r matches Err(e) ==> create_outcome_v1(
            old(ledger)@, *ctx, ix.seed_string@, ix.bump, ix.program_id@, opt_bytes_view(ix.seed_prefix),
            opt_bytes_view(ix.seed_postfix), ix.fields.deep_view(), rent,
        ) == Err::<Map<Seq<u8>, AccountView>, ConfigError>(e) && final(ledger)@ == old(ledger)@,
{
    if ledger.contains(&ctx.metadata_config) {
        return Err(ConfigError::AlreadyInitialized);
    }
    let derived = derive_v1(ix.seed_string.as_str(), &ix.seed_prefix, &ix.seed_postfix, &ctx.program_id);
    let (address, found) = match derived {
        None => {
            return Err(ConfigError::DerivationExhausted);
        },
        Some(d) => d,
    };
    if !same_address(&address, &ctx.metadata_config) || ix.bump != found {
        return Err(ConfigError::InvalidSeeds);
    }
    if !ctx.payer_is_signer {
        return Err(ConfigError::PayerNotSigner);
    }
    if !ledger.can_fund(&ctx.payer, rent) {
        return Err(ConfigError::InsufficientFunds);
    }
    let config = MetadataConfigV1 {
        program_id: ix.program_id,
        seed_prefix: ix.seed_prefix,
        seed_postfix: ix.seed_postfix,
        fields: ix.fields,
        uri: String::new(),
        attrs: Vec::new(),
    };
    assert(attributes_view(config.attrs@) =~= Seq::<AttributeView>::empty());
    let data = match config.try_serialize() {
        None => {
            return Err(ConfigError::CapacityExceeded);
        },
        Some(d) => d,
    };
    ledger.fund_new_account(&ctx.payer, ctx.metadata_config, ctx.program_id, rent, data);
    Ok(())
}

/// The capacity boundary of the first generation: a request that passes
/// every other check succeeds exactly when the discriminator and the
/// serialized record fit in 256 bytes, and otherwise fails with
/// `CapacityExceeded`.
pub proof fn lemma_capacity_boundary_v1(
    ledger: Map<Seq<u8>, AccountView>,
    ctx: CreateMetadatConfigCtx,
    seed_string: Seq<char>,
    bump: u8,
    program_id: Seq<u8>,
    prefix: Option<Seq<u8>>,
    postfix: Option<Seq<u8>>,
    fields: Seq<Seq<char>>,
    rent: u64,
)
    requires
        !ledger.contains_key(ctx.metadata_config@),
        find_program_address_of(seeds_v1(encode_utf8(seed_string), prefix, postfix), ctx.program_id@)
            == Some((ctx.metadata_config@, bump)),
        ctx.payer_is_signer,
        ledger.contains_key(ctx.payer@),
        ledger[ctx.payer@].lamports >= rent,
    ensures
        create_outcome_v1(ledger, ctx, seed_string, bump, program_id, prefix, postfix, fields, rent) is Ok
            <==> DISCRIMINATOR_LEN + config_v1_bytes(initial_config_v1(program_id, prefix, postfix, fields)).len()
            <= ACCOUNT_SPACE_V1,
        create_outcome_v1(ledger, ctx, seed_string, bump, program_id, prefix, postfix, fields, rent) is Err
            ==> create_outcome_v1(ledger, ctx, seed_string, bump, program_id, prefix, postfix, fields, rent)
            == Err::<Map<Seq<u8>, AccountView>, ConfigError>(ConfigError::CapacityExceeded),
{
}

/// First write wins for the first generation: once a request has stored a
/// record, a second request for the same target fails with
/// `AlreadyInitialized`, and the stored record stays the first one.
pub proof fn lemma_first_write_wins_v1(
    ledger: Map<Seq<u8>, AccountView>,
    first: CreateMetadatConfigCtx,
    second: CreateMetadatConfigCtx,
    seed_string: Seq<char>,
    first_bump: u8,
    second_bump: u8,
    program_id: Seq<u8>,
    prefix: Option<Seq<u8>>,
    postfix: Option<Seq<u8>>,
    first_fields: Seq<Seq<char>>,
    second_fields: Seq<Seq<char>>,
    rent: u64,
)
    requires
        second.metadata_config == first.metadata_config,
        create_outcome_v1(ledger, first, seed_string, first_bump, program_id, prefix, postfix, first_fields, rent) is Ok,
    ensures
        ({
            let after = create_outcome_v1(
                ledger, first, seed_string, first_bump, program_id, prefix, postfix, first_fields, rent,
            )->Ok_0;
            &&& after.contains_key(first.metadata_config@)
            &&& after[first.metadata_config@].data == account_image_v1(
                initial_config_v1(program_id, prefix, postfix, first_fields),
            )
            &&& create_outcome_v1(after, second, seed_string, second_bump, program_id, prefix, postfix, second_fields, rent)
                == Err::<Map<Seq<u8>, AccountView>, ConfigError>(ConfigError::AlreadyInitialized)
        }),
{
}

/// A first-generation request whose target is free but whose bump is not
/// the derived one, or whose target is not the derived address, fails with
/// `InvalidSeeds`.
pub proof fn lemma_seed_bump_binding_v1(
    ledger: Map<Seq<u8>, AccountView>,
    ctx: CreateMetadatConfigCtx,
    seed_string: Seq<char>,
    bump: u8,
    program_id: Seq<u8>,
    prefix: Option<Seq<u8>>,
    postfix: Option<Seq<u8>>,
    fields: Seq<Seq<char>>,
    rent: u64,
)
    requires
        !ledger.contains_key(ctx.metadata_config@),
        find_program_address_of(seeds_v1(encode_utf8(seed_string), prefix, postfix), ctx.program_id@) matches Some(
            (address, found),
        ) && (address != ctx.metadata_config@ || bump != found),
    ensures
        create_outcome_v1(ledger, ctx, seed_string, bump, program_id, prefix, postfix, fields, rent)
            == Err::<Map<Seq<u8>, AccountView>, ConfigError>(ConfigError::InvalidSeeds),
{
}

} // verus!
