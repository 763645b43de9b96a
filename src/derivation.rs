//! Deterministic derivation of a record's storage address from a fixed
//! domain prefix and a caller-chosen seed string.

use vstd::prelude::*;
use vstd::string::StringSliceAdditionalSpecFns;

verus! {

/// The domain prefix under which every metadata config address is derived.
pub const METADATA_CONFIG_SEED: &'static str = "metadata-config";

/// The highest bump value that the search tries first.
pub const MAX_BUMP: u8 = 255;

/// Largest number of seeds accepted by a program address derivation.
pub const MAX_SEEDS: usize = 16;

/// What `Pubkey::create_program_address` gives for the seeds and the owning
/// program: the off-curve address, or `None` when the seeds are rejected or
/// the hash lands on the curve.
pub uninterp spec fn program_address_of(seeds: Seq<Seq<u8>>, program_id: Seq<u8>) -> Option<Seq<u8>>;

/// The seeds with a one-byte bump seed appended.
pub open spec fn with_bump(seeds: Seq<Seq<u8>>, bump: u8) -> Seq<Seq<u8>> {
    seeds.push(seq![bump])
}

/// The bump search: from `bump` downward to 1, the first bump whose seeds
/// give an off-curve address, with that address.
pub open spec fn bump_search(seeds: Seq<Seq<u8>>, program_id: Seq<u8>, bump: int) -> Option<(Seq<u8>, u8)>
    decreases bump,
{
    if bump < 1 || bump > 255 {
        None
    } else {
        match program_address_of(with_bump(seeds, bump as u8), program_id) {
            Some(a) => Some((a, bump as u8)),
            None => bump_search(seeds, program_id, bump - 1),
        }
    }
}

/// The canonical program address and bump of the seeds, as the search from
/// the highest bump finds it.
pub open spec fn find_program_address_of(seeds: Seq<Seq<u8>>, program_id: Seq<u8>) -> Option<(Seq<u8>, u8)> {
    if seeds.len() >= MAX_SEEDS {
        None
    } else {
        bump_search(seeds, program_id, MAX_BUMP as int)
    }
}

/// The seeds of a derivation: the domain prefix, then the seed string.
pub open spec fn derivation_seeds(domain_prefix: Seq<u8>, seed_string: Seq<u8>) -> Seq<Seq<u8>> {
    seq![domain_prefix, seed_string]
}

/// The address and bump derived from a domain prefix and a seed string.
pub open spec fn derivation(domain_prefix: Seq<u8>, seed_string: Seq<u8>, program_id: Seq<u8>) -> Option<(Seq<u8>, u8)> {
    find_program_address_of(derivation_seeds(domain_prefix, seed_string), program_id)
}

/// An executable derivation result seen as plain values.
pub open spec fn found_view(r: Option<([u8; 32], u8)>) -> Option<(Seq<u8>, u8)> {
    match r {
        Some((a, b)) => Some((a@, b)),
        None => None,
    }
}

/// Relies on `Pubkey::try_find_program_address` (anchor_lang's re-export of
/// solana-address): with fewer than 16 seeds it tries the bumps from 255 down
/// to 1 and returns the first address that `create_program_address` accepts,
/// with its bump; it returns `None` when no bump is accepted or when there
/// are 16 seeds or more.
#[verifier::external_body]
pub(crate) fn try_find_program_address(seeds: &Vec<Vec<u8>>, program_id: &[u8; 32]) -> (r: Option<([u8; 32], u8)>)
    ensures
        seeds@.len() >= MAX_SEEDS ==> r is None,
        r matches Some((a, b)) ==> {
            &&& 1 <= b
            &&& program_address_of(with_bump(seeds.deep_view(), b), program_id@) == Some(a@)
            &&& forall|c: u8|
                b < c ==> (#[trigger] program_address_of(with_bump(seeds.deep_view(), c), program_id@)) is None
        },
        r is None ==> seeds@.len() >= MAX_SEEDS || forall|c: u8|
            1 <= c ==> (#[trigger] program_address_of(with_bump(seeds.deep_view(), c), program_id@)) is None,
{
    let slices: Vec<&[u8]> = seeds.iter().map(|s| s.as_slice()).collect();
    let id = anchor_lang::prelude::Pubkey::new_from_array(*program_id);
    anchor_lang::prelude::Pubkey::try_find_program_address(&slices, &id).map(|(a, b)| (a.to_bytes(), b))
}

/// The search skips every bump above `bump` that gives no address.
proof fn lemma_search_skips(seeds: Seq<Seq<u8>>, program_id: Seq<u8>, bump: int)
    requires
        0 <= bump <= 255,
        forall|c: u8| bump < c ==> (#[trigger] program_address_of(with_bump(seeds, c), program_id)) is None,
    ensures
        bump_search(seeds, program_id, 255) == bump_search(seeds, program_id, bump),
    decreases 255 - bump,
{
    if bump < 255 {
        let next = (bump + 1) as u8;
        assert(program_address_of(with_bump(seeds, next), program_id) is None);
        lemma_search_skips(seeds, program_id, bump + 1);
    }
}

/// The outcome of the search, stated as a bump and the bumps above it.
pub(crate) proof fn lemma_search_outcome(seeds: Seq<Seq<u8>>, program_id: Seq<u8>, r: Option<([u8; 32], u8)>)
    requires
        seeds.len() >= MAX_SEEDS ==> r is None,
        r matches Some((a, b)) ==> {
            &&& 1 <= b
            &&& program_address_of(with_bump(seeds, b), program_id) == Some(a@)
            &&& forall|c: u8| b < c ==> (#[trigger] program_address_of(with_bump(seeds, c), program_id)) is None
        },
        r is None ==> seeds.len() >= MAX_SEEDS || forall|c: u8|
            1 <= c ==> (#[trigger] program_address_of(with_bump(seeds, c), program_id)) is None,
    ensures
        found_view(r) == find_program_address_of(seeds, program_id),
{
    match r {
        Some((a, b)) => {
            lemma_search_skips(seeds, program_id, b as int);
        },
        None => {
            if seeds.len() < MAX_SEEDS {
                lemma_search_skips(seeds, program_id, 0);
            }
        },
    }
}

/// Copies the UTF-8 bytes of a string slice.
pub(crate) fn str_to_bytes(s: &str) -> (r: Vec<u8>)
    ensures
        r@ == s.spec_bytes(),
{
    let b = s.as_bytes();
    let mut out: Vec<u8> = Vec::new();
    let mut i: usize = 0;
    while i < b.len()
        invariant
            b@ == s.spec_bytes(),
            i <= b@.len(),
            out@ == b@.subrange(0, i as int),
        decreases b@.len() - i,
    {
        out.push(b[i]);
        i += 1;
        assert(out@ =~= b@.subrange(0, i as int));
    }
    assert(out@ =~= b@);
    out
}

/// Derives the storage address and bump of `seed_string` under
/// `domain_prefix` for the owning program. `None` is the exhausted search:
/// no bump from 255 down to 1 gives an off-curve address (always so when a
/// seed is longer than 32 bytes).
pub fn derive(domain_prefix: &str, seed_string: &str, program_id: &[u8; 32]) -> (r: Option<([u8; 32], u8)>)
    ensures
        found_view(r) == derivation(domain_prefix.spec_bytes(), seed_string.spec_bytes(), program_id@),
{
    let p = str_to_bytes(domain_prefix);
    let s = str_to_bytes(seed_string);
    assert(p.deep_view() =~= p@);
    assert(s.deep_view() =~= s@);
    let seeds: Vec<Vec<u8>> = vec![p, s];
    assert(seeds.deep_view() =~= derivation_seeds(domain_prefix.spec_bytes(), seed_string.spec_bytes()));
    let r = try_find_program_address(&seeds, program_id);
    proof {
        lemma_search_outcome(seeds.deep_view(), program_id@, r);
    }
    r
}

/// Derivation is a function of its inputs: deriving twice from the same
/// prefix, seed string and program gives the same address and bump.
pub proof fn lemma_derive_deterministic(
    domain_prefix: Seq<u8>,
    seed_string: Seq<u8>,
    program_id: Seq<u8>,
    first: Option<([u8; 32], u8)>,
    second: Option<([u8; 32], u8)>,
)
    requires
        found_view(first) == derivation(domain_prefix, seed_string, program_id),
        found_view(second) == derivation(domain_prefix, seed_string, program_id),
    ensures
        first == second,
{
    match first {
        Some((a, b)) => {
            let (c, d) = second->Some_0;
            assert(a@ =~= c@);
            assert(a == c);
        },
        None => {},
    }
}

} // verus!
