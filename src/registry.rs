//! The ledger's accounts as a store keyed by address, and the instruction
//! that creates a metadata config record at its derived address.

use vstd::prelude::*;
use vstd::string::StringSliceAdditionalSpecFns;
use vstd::utf8::encode_utf8;
use crate::derivation::{derivation, METADATA_CONFIG_SEED};
use crate::layout::{
    account_image, addresses_sized, attributes_view, config_bytes, lemma_round_trip, parse_config, fits_account, ACCOUNT_SPACE, DISCRIMINATOR_LEN, Attribute, AttributeView, ConfigView,
    MetadataConfig,
};

verus! {

/// Why a creation request was refused.
#[derive(Clone, Copy, Debug, PartialEq, Eq, Structural)]
pub enum ConfigError {
    /// The target address already holds an account.
    AlreadyInitialized,
    /// No bump gives an off-curve address for the seed string.
    DerivationExhausted,
    /// The target address or the supplied bump is not the derived one.
    InvalidSeeds,
    /// The payer did not sign the request.
    PayerNotSigner,
    /// The payer has no account or too few lamports for the storage rent.
    InsufficientFunds,
    /// The serialized record does not fit in the account.
    CapacityExceeded,
}

/// An account of the ledger: its address, owning program, balance and data.
#[derive(Clone, Debug)]
pub struct Account {
    pub address: [u8; 32],
    pub owner: [u8; 32],
    pub lamports: u64,
    pub data: Vec<u8>,
}

/// An account as plain values, without its address.
pub struct AccountView {
    pub owner: Seq<u8>,
    pub lamports: u64,
    pub data: Seq<u8>,
}

impl View for Account {
    type V = AccountView;

    open spec fn view(&self) -> AccountView {
        AccountView { owner: self.owner@, lamports: self.lamports, data: self.data@ }
    }
}

/// The accounts of a list by address; a later entry hides an earlier one.
pub open spec fn accounts_map(s: Seq<Account>) -> Map<Seq<u8>, AccountView>
    decreases s.len(),
{
    if s.len() == 0 {
        Map::empty()
    } else {
        accounts_map(s.drop_last()).insert(s.last().address@, s.last()@)
    }
}

/// The index of the last entry of a list with the address, or -1.
pub open spec fn last_index(s: Seq<Account>, address: Seq<u8>) -> int
    decreases s.len(),
{
    if s.len() == 0 {
        -1
    } else if s.last().address@ == address {
        s.len() - 1
    } else {
        last_index(s.drop_last(), address)
    }
}

/// The ledger: every account, keyed by address.
pub struct Ledger {
    accounts: Vec<Account>,
}

impl View for Ledger {
    type V = Map<Seq<u8>, AccountView>;

    closed spec fn view(&self) -> Map<Seq<u8>, AccountView> {
        accounts_map(self.accounts@)
    }
}

/// The accounts named by a creation request.
#[derive(Clone, Copy, Debug)]
pub struct CreateMetadatConfigCtx {
    /// The registry program, which owns the records it creates.
    pub program_id: [u8; 32],
    /// Where the record is to be stored.
    pub metadata_config: [u8; 32],
    /// A linked mint metadata account, named but neither read nor written.
    pub mint_metadata: [u8; 32],
    /// The account that funds the storage.
    pub payer: [u8; 32],
    /// Whether the payer signed the request.
    pub payer_is_signer: bool,
}

/// The payload of a creation request. A supplied `bump` is checked against
/// the derived one; without it the derived one is used.
#[derive(Clone, Debug)]
pub struct CreateMetadataConfigIx {
    pub seed_string: String,
    pub bump: Option<u8>,
    pub attributes: Vec<Attribute>,
}

/// The record that a creation request writes: an empty base URI and the
/// request's attributes.
pub open spec fn initial_config(attributes: Seq<AttributeView>) -> ConfigView {
    ConfigView { base_metadata_uri: Seq::empty(), attributes }
}

/// The ledger after a creation request, or the error it fails with.
pub open spec fn create_outcome(
    ledger: Map<Seq<u8>, AccountView>,
    ctx: CreateMetadatConfigCtx,
    seed_string: Seq<char>,
    bump: Option<u8>,
    attributes: Seq<AttributeView>,
    rent: u64,
) -> Result<Map<Seq<u8>, AccountView>, ConfigError> {
    let target = ctx.metadata_config@;
    let payer = ctx.payer@;
    let config = initial_config(attributes);
    if ledger.contains_key(target) {
        Err(ConfigError::AlreadyInitialized)
    } else {
        match derivation(METADATA_CONFIG_SEED.spec_bytes(), encode_utf8(seed_string), ctx.program_id@) {
            None => Err(ConfigError::DerivationExhausted),
            Some((address, found)) => {
                if address != target || (bump matches Some(b) && b != found) {
                    Err(ConfigError::InvalidSeeds)
                } else if !ctx.payer_is_signer {
                    Err(ConfigError::PayerNotSigner)
                } else if !ledger.contains_key(payer) || ledger[payer].lamports < rent {
                    Err(ConfigError::InsufficientFunds)
                } else if !fits_account(config) {
                    Err(ConfigError::CapacityExceeded)
                } else {
                    Ok(
                        ledger.insert(
                            payer,
                            AccountView { lamports: (ledger[payer].lamports - rent) as u64, ..ledger[payer] },
                        ).insert(
                            target,
                            AccountView { owner: ctx.program_id@, lamports: rent, data: account_image(config) },
                        ),
                    )
                }
            },
        }
    }
}

/// A ledger entry is in the map exactly when the search finds it, with the
/// entry at the found index.
proof fn lemma_last_index(s: Seq<Account>, address: Seq<u8>)
    ensures
        -1 <= last_index(s, address) < s.len(),
        accounts_map(s).contains_key(address) <==> last_index(s, address) >= 0,
        last_index(s, address) >= 0 ==> {
            &&& s[last_index(s, address)].address@ == address
            &&& accounts_map(s)[address] == s[last_index(s, address)]@
            &&& forall|j: int| last_index(s, address) < j < s.len() ==> s[j].address@ != address
        },
    decreases s.len(),
{
    if s.len() > 0 {
        let t = s.drop_last();
        lemma_last_index(t, address);
        if s.last().address@ != address && last_index(s, address) >= 0 {
            let k = last_index(s, address);
            assert forall|j: int| k < j < s.len() implies s[j].address@ != address by {
                if j < s.len() - 1 {
                    assert(s[j] == t[j]);
                }
            }
        }
    }
}

/// Replacing the last entry with an address replaces that address's account.
proof fn lemma_update_last(s: Seq<Account>, k: int, a: Account)
    requires
        0 <= k < s.len(),
        s[k].address == a.address,
        forall|j: int| k < j < s.len() ==> s[j].address@ != a.address@,
    ensures
        accounts_map(s.update(k, a)) == accounts_map(s).insert(a.address@, a@),
    decreases s.len(),
{
    let t = s.update(k, a);
    if k == s.len() - 1 {
        assert(t.drop_last() =~= s.drop_last());
        assert(accounts_map(t) =~= accounts_map(s).insert(a.address@, a@));
    } else {
        assert(t.drop_last() =~= s.drop_last().update(k, a));
        lemma_update_last(s.drop_last(), k, a);
        assert(accounts_map(t) =~= accounts_map(s).insert(a.address@, a@));
    }
}

/// Whether two addresses are equal.
pub(crate) fn same_address(a: &[u8; 32], b: &[u8; 32]) -> (r: bool)
    ensures
        r == (a@ == b@),
{
    let mut i: usize = 0;
    while i < 32
        invariant
            i <= 32,
            forall|j: int| 0 <= j < i ==> a@[j] == b@[j],
        decreases 32 - i,
    {
        if a[i] != b[i] {
            return false;
        }
        i += 1;
    }
    assert(a@ =~= b@);
    true
}

impl Ledger {
    /// An empty ledger.
    pub fn new() -> (r: Ledger)
        ensures
            r@ == Map::<Seq<u8>, AccountView>::empty(),
    {
        Ledger { accounts: Vec::new() }
    }

    /// The index of the entry that holds the address, if any.
    fn find(&self, address: &[u8; 32]) -> (r: Option<usize>)
        ensures
            r is None <==> last_index(self.accounts@, address@) < 0,
            r matches Some(k) ==> k == last_index(self.accounts@, address@),
    {
        let mut found: Option<usize> = None;
        let mut i: usize = 0;
        while i < self.accounts.len()
            invariant
                i <= self.accounts@.len(),
                found is None <==> last_index(self.accounts@.subrange(0, i as int), address@) < 0,
                found matches Some(k) ==> k == last_index(self.accounts@.subrange(0, i as int), address@),
            decreases self.accounts@.len() - i,
        {
            assert(self.accounts@.subrange(0, i + 1 as int).drop_last() =~= self.accounts@.subrange(0, i as int));
            if same_address(&self.accounts[i].address, address) {
                found = Some(i);
            }
            i += 1;
        }
        assert(self.accounts@.subrange(0, self.accounts@.len() as int) =~= self.accounts@);
        found
    }

    /// Whether an account exists at the address.
    pub fn contains(&self, address: &[u8; 32]) -> (r: bool)
        ensures
            r == self@.contains_key(address@),
    {
        proof {
            lemma_last_index(self.accounts@, address@);
        }
        self.find(address).is_some()
    }

    /// Opens a new account at an address that holds none; returns whether
    /// it did.
    pub fn open_account(&mut self, address: [u8; 32], owner: [u8; 32], lamports: u64) -> (r: bool)
        ensures
            r == !old(self)@.contains_key(address@),
            r ==> final(self)@ == old(self)@.insert(
                address@,
                AccountView { owner: owner@, lamports, data: Seq::empty() },
            ),
            !r ==> final(self)@ == old(self)@,
    {
        if self.contains(&address) {
            return false;
        }
        let acct = Account { address, owner, lamports, data: Vec::new() };
        self.accounts.push(acct);
        proof {
            assert(self.accounts@.drop_last() =~= old(self).accounts@);
        }
        true
    }

    /// The balance of the account at the address, if one exists.
    pub fn lamports(&self, address: &[u8; 32]) -> (r: Option<u64>)
        ensures
            r == (if self@.contains_key(address@) {
                Some(self@[address@].lamports)
            } else {
                None::<u64>
            }),
    {
        proof {
            lemma_last_index(self.accounts@, address@);
        }
        match self.find(address) {
            Some(k) => Some(self.accounts[k].lamports),
            None => None,
        }
    }

    /// The owning program of the account at the address, if one exists.
    pub fn owner(&self, address: &[u8; 32]) -> (r: Option<[u8; 32]>)
        ensures
            r matches Some(o) ==> self@.contains_key(address@) && o@ == self@[address@].owner,
            r is None ==> !self@.contains_key(address@),
    {
        proof {
            lemma_last_index(self.accounts@, address@);
        }
        match self.find(address) {
            Some(k) => Some(self.accounts[k].owner),
            None => None,
        }
    }

    /// The metadata config stored at the address: `None` when no account is
    /// there, when the registry program does not own it, or when its data
    /// does not hold a config.
    pub fn read_metadata_config(&self, address: &[u8; 32], program_id: &[u8; 32]) -> (r: Option<MetadataConfig>)
        ensures
            r matches Some(c) ==> {
                &&& self@.contains_key(address@)
                &&& self@[address@].owner == program_id@
                &&& parse_config(self@[address@].data) == Some(c@)
            },
            r is None ==> !self@.contains_key(address@) || self@[address@].owner != program_id@
                || parse_config(self@[address@].data) is None,
    {
        proof {
            lemma_last_index(self.accounts@, address@);
        }
        match self.find(address) {
            Some(k) => {
                if !same_address(&self.accounts[k].owner, program_id) {
                    return None;
                }
                MetadataConfig::try_deserialize(&self.accounts[k].data)
            },
            None => None,
        }
    }

    /// Whether the payer holds an account with at least `rent` lamports.
    pub(crate) fn can_fund(&self, payer: &[u8; 32], rent: u64) -> (r: bool)
        ensures
            r == (self@.contains_key(payer@) && self@[payer@].lamports >= rent),
    {
        proof {
            lemma_last_index(self.accounts@, payer@);
        }
        match self.find(payer) {
            Some(k) => self.accounts[k].lamports >= rent,
            None => false,
        }
    }

    /// Moves `rent` lamports from the payer to a new account at `target`,
    /// owned by `owner` and holding `data`.
    pub(crate) fn fund_new_account(
        &mut self,
        payer: &[u8; 32],
        target: [u8; 32],
        owner: [u8; 32],
        rent: u64,
        data: Vec<u8>,
    )
        requires
            old(self)@.contains_key(payer@),
            old(self)@[payer@].lamports >= rent,
        ensures
            final(self)@ == old(self)@.insert(
                payer@,
                AccountView { lamports: (old(self)@[payer@].lamports - rent) as u64, ..old(self)@[payer@] },
            ).insert(target@, AccountView { owner: owner@, lamports: rent, data: data@ }),
    {
        proof {
            lemma_last_index(self.accounts@, payer@);
        }
        let k = match self.find(payer) {
            Some(k) => k,
            None => {
                return;
            },
        };
        let ghost before = self.accounts@;
        let balance = self.accounts[k].lamports - rent;
        self.accounts[k].lamports = balance;
        proof {
            lemma_update_last(before, k as int, self.accounts@[k as int]);
            assert(self.accounts@ == before.update(k as int, self.accounts@[k as int]));
        }
        let ghost debited = self.accounts@;
        self.accounts.push(Account { address: target, owner, lamports: rent, data });
        proof {
            assert(self.accounts@.drop_last() =~= debited);
        }
    }

    /// A copy of the data of the account at the address, if one exists.
    pub fn data(&self, address: &[u8; 32]) -> (r: Option<Vec<u8>>)
        ensures
            r matches Some(d) ==> self@.contains_key(address@) && d@ == self@[address@].data,
            r is None ==> !self@.contains_key(address@),
    {
        proof {
            lemma_last_index(self.accounts@, address@);
        }
        match self.find(address) {
            Some(k) => Some(self.accounts[k].data.clone()),
            None => None,
        }
    }
}

/// Creates the metadata config record at the derived address named by
/// `ctx`, funded by the payer with `rent` lamports. Every check comes before
/// any change: on an error the ledger is left as it was.
pub fn create_metadata_config(
    ledger: &mut Ledger,
    ctx: &CreateMetadatConfigCtx,
    ix: CreateMetadataConfigIx,
    rent: u64,
) -> (r: Result<(), ConfigError>)
    ensures
        r matches Ok(()) ==> create_outcome(
            old(ledger)@, *ctx, ix.seed_string@, ix.bump, attributes_view(ix.attributes@), rent,
        ) == Ok::<Map<Seq<u8>, AccountView>, ConfigError>(final(ledger)@),
        r matches Err(e) ==> create_outcome(
            old(ledger)@, *ctx, ix.seed_string@, ix.bump, attributes_view(ix.attributes@), rent,
        ) == Err::<Map<Seq<u8>, AccountView>, ConfigError>(e) && final(ledger)@ == old(ledger)@,
{
    if ledger.contains(&ctx.metadata_config) {
        return Err(ConfigError::AlreadyInitialized);
    }
    let derived = crate::derivation::derive(METADATA_CONFIG_SEED, ix.seed_string.as_str(), &ctx.program_id);
    let (address, found) = match derived {
        None => {
            return Err(ConfigError::DerivationExhausted);
        },
        Some(d) => d,
    };
    if !same_address(&address, &ctx.metadata_config) {
        return Err(ConfigError::InvalidSeeds);
    }
    match ix.bump {
        Some(b) => {
            if b != found {
                return Err(ConfigError::InvalidSeeds);
            }
        },
        None => {},
    }
    if !ctx.payer_is_signer {
        return Err(ConfigError::PayerNotSigner);
    }
    if !ledger.can_fund(&ctx.payer, rent) {
        return Err(ConfigError::InsufficientFunds);
    }
    let config = MetadataConfig { base_metadata_uri: String::new(), attributes: ix.attributes };
    let data = match config.try_serialize() {
        None => {
            return Err(ConfigError::CapacityExceeded);
        },
        Some(d) => d,
    };
    ledger.fund_new_account(&ctx.payer, ctx.metadata_config, ctx.program_id, rent, data);
    Ok(())
}

/// First write wins: once a creation request has stored a record, a second
/// request for the same seed string and target address fails with
/// `AlreadyInitialized`, and the stored record stays the first one.
pub proof fn lemma_first_write_wins(
    ledger: Map<Seq<u8>, AccountView>,
    first: CreateMetadatConfigCtx,
    second: CreateMetadatConfigCtx,
    seed_string: Seq<char>,
    first_bump: Option<u8>,
    second_bump: Option<u8>,
    first_attributes: Seq<AttributeView>,
    second_attributes: Seq<AttributeView>,
    first_rent: u64,
    second_rent: u64,
)
    requires
        second.metadata_config == first.metadata_config,
        create_outcome(ledger, first, seed_string, first_bump, first_attributes, first_rent) is Ok,
    ensures
        ({
            let after = create_outcome(ledger, first, seed_string, first_bump, first_attributes, first_rent)->Ok_0;
            &&& after.contains_key(first.metadata_config@)
            &&& after[first.metadata_config@].data == account_image(initial_config(first_attributes))
            &&& create_outcome(after, second, seed_string, second_bump, second_attributes, second_rent)
                == Err::<Map<Seq<u8>, AccountView>, ConfigError>(ConfigError::AlreadyInitialized)
        }),
{
}

/// A request whose target is free but whose supplied bump is not the derived
/// one, or whose target is not the derived address, fails with
/// `InvalidSeeds`.
pub proof fn lemma_seed_bump_binding(
    ledger: Map<Seq<u8>, AccountView>,
    ctx: CreateMetadatConfigCtx,
    seed_string: Seq<char>,
    bump: Option<u8>,
    attributes: Seq<AttributeView>,
    rent: u64,
)
    requires
        !ledger.contains_key(ctx.metadata_config@),
        derivation(METADATA_CONFIG_SEED.spec_bytes(), encode_utf8(seed_string), ctx.program_id@) matches Some(
            (address, found),
        ) && (address != ctx.metadata_config@ || (bump matches Some(b) && b != found)),
    ensures
        create_outcome(ledger, ctx, seed_string, bump, attributes, rent)
            == Err::<Map<Seq<u8>, AccountView>, ConfigError>(ConfigError::InvalidSeeds),
{
}

/// The capacity boundary: a request that passes every other check succeeds
/// exactly when the discriminator and the serialized record fit in the
/// account's space, and otherwise fails with `CapacityExceeded`.
pub proof fn lemma_capacity_boundary(
    ledger: Map<Seq<u8>, AccountView>,
    ctx: CreateMetadatConfigCtx,
    seed_string: Seq<char>,
    bump: Option<u8>,
    attributes: Seq<AttributeView>,
    rent: u64,
)
    requires
        !ledger.contains_key(ctx.metadata_config@),
        derivation(METADATA_CONFIG_SEED.spec_bytes(), encode_utf8(seed_string), ctx.program_id@) matches Some(
            (address, found),
        ) && address == ctx.metadata_config@ && (bump matches Some(b) ==> b == found),
        ctx.payer_is_signer,
        ledger.contains_key(ctx.payer@),
        ledger[ctx.payer@].lamports >= rent,
    ensures
        create_outcome(ledger, ctx, seed_string, bump, attributes, rent) is Ok
            <==> DISCRIMINATOR_LEN + config_bytes(initial_config(attributes)).len() <= ACCOUNT_SPACE,
        create_outcome(ledger, ctx, seed_string, bump, attributes, rent) is Err ==> create_outcome(
            ledger, ctx, seed_string, bump, attributes, rent,
        ) == Err::<Map<Seq<u8>, AccountView>, ConfigError>(ConfigError::CapacityExceeded),
{
}

/// A created record reads back: after a successful creation request the
/// target account belongs to the registry program and its data holds the
/// request's attributes with an empty base URI.
pub proof fn lemma_created_record_reads_back(
    ledger: Map<Seq<u8>, AccountView>,
    ctx: CreateMetadatConfigCtx,
    seed_string: Seq<char>,
    bump: Option<u8>,
    attributes: Seq<AttributeView>,
    rent: u64,
)
    requires
        create_outcome(ledger, ctx, seed_string, bump, attributes, rent) is Ok,
        forall|i: int| 0 <= i < attributes.len() ==> (#[trigger] attributes[i]).address.len() == 32,
    ensures
        ({
            let after = create_outcome(ledger, ctx, seed_string, bump, attributes, rent)->Ok_0;
            &&& after.contains_key(ctx.metadata_config@)
            &&& after[ctx.metadata_config@].owner == ctx.program_id@
            &&& parse_config(after[ctx.metadata_config@].data) == Some(initial_config(attributes))
            &&& initial_config(attributes).base_metadata_uri == Seq::<char>::empty()
        }),
{
    assert(addresses_sized(initial_config(attributes)));
    lemma_round_trip(initial_config(attributes));
}

} // verus!
