//! The metadata config record, its attributes, and the byte layout of the
//! account that holds it: an 8-byte type discriminator, then the fields in
//! declaration order, each string and list prefixed by its length as a
//! little-endian `u32`, then zeros up to the account's fixed size.

use vstd::prelude::*;
use vstd::string::StringSliceAdditionalSpecFns;
use vstd::utf8::{decode_utf8, encode_utf8, valid_utf8};

verus! {

/// Size in bytes of the account that holds a metadata config.
pub const ACCOUNT_SPACE: usize = 512;

/// Size in bytes of the account type discriminator.
pub const DISCRIMINATOR_LEN: usize = 8;

/// The account type discriminator of `MetadataConfig`: the first eight bytes
/// of the SHA-256 digest of `account:MetadataConfig`.
pub const METADATA_CONFIG_DISCRIMINATOR: [u8; 8] = [180, 15, 130, 53, 51, 229, 206, 253];

/// A schema reference: which on-ledger entity it describes, the kind of
/// that entity, and the names of the fields that matter for it.
#[derive(Clone, Debug)]
pub struct Attribute {
    pub address: [u8; 32],
    pub account_type: String,
    pub fields: Vec<String>,
}

/// The persisted record.
#[derive(Clone, Debug)]
pub struct MetadataConfig {
    pub base_metadata_uri: String,
    pub attributes: Vec<Attribute>,
}

/// An attribute as plain values.
pub struct AttributeView {
    pub address: Seq<u8>,
    pub account_type: Seq<char>,
    pub fields: Seq<Seq<char>>,
}

/// A metadata config as plain values.
pub struct ConfigView {
    pub base_metadata_uri: Seq<char>,
    pub attributes: Seq<AttributeView>,
}

impl View for Attribute {
    type V = AttributeView;

    open spec fn view(&self) -> AttributeView {
        AttributeView {
            address: self.address@,
            account_type: self.account_type@,
            fields: self.fields.deep_view(),
        }
    }
}

impl Default for Attribute {
    /// The zero address, an empty account type and no fields.
    fn default() -> (r: Attribute)
        ensures
            r@ == (AttributeView {
                address: Seq::new(32, |i: int| 0u8),
                account_type: Seq::empty(),
                fields: Seq::empty(),
            }),
    {
        let r = Attribute { address: [0u8; 32], account_type: String::new(), fields: Vec::new() };
        assert(r.address@ =~= Seq::new(32, |i: int| 0u8));
        assert(r.fields.deep_view() =~= Seq::<Seq<char>>::empty());
        r
    }
}

/// The attributes of a list as plain values.
pub open spec fn attributes_view(attrs: Seq<Attribute>) -> Seq<AttributeView> {
    attrs.map_values(|a: Attribute| a@)
}

impl View for MetadataConfig {
    type V = ConfigView;

    open spec fn view(&self) -> ConfigView {
        ConfigView {
            base_metadata_uri: self.base_metadata_uri@,
            attributes: attributes_view(self.attributes@),
        }
    }
}

/// The four little-endian bytes of `n`.
pub open spec fn u32_le(n: u32) -> Seq<u8> {
    seq![
        (n % 256) as u8,
        ((n / 256) % 256) as u8,
        ((n / 65536) % 256) as u8,
        ((n / 16777216) % 256) as u8,
    ]
}

/// The length prefix written for a string or list of `n` bytes or items.
pub open spec fn len_prefix(n: nat) -> Seq<u8> {
    u32_le(n as u32)
}

/// A string: its UTF-8 length, then its UTF-8 bytes.
pub open spec fn str_bytes(s: Seq<char>) -> Seq<u8> {
    len_prefix(encode_utf8(s).len()) + encode_utf8(s)
}

/// The strings of a list, one after the other.
pub open spec fn strs_body(ss: Seq<Seq<char>>) -> Seq<u8>
    decreases ss.len(),
{
    if ss.len() == 0 {
        Seq::empty()
    } else {
        strs_body(ss.drop_last()) + str_bytes(ss.last())
    }
}

/// A list of strings: its length, then its strings.
pub open spec fn strs_bytes(ss: Seq<Seq<char>>) -> Seq<u8> {
    len_prefix(ss.len()) + strs_body(ss)
}

/// An attribute: its address, its account type, then its fields.
pub open spec fn attr_bytes(a: AttributeView) -> Seq<u8> {
    a.address + str_bytes(a.account_type) + strs_bytes(a.fields)
}

/// The attributes of a list, one after the other.
pub open spec fn attrs_body(attrs: Seq<AttributeView>) -> Seq<u8>
    decreases attrs.len(),
{
    if attrs.len() == 0 {
        Seq::empty()
    } else {
        attrs_body(attrs.drop_last()) + attr_bytes(attrs.last())
    }
}

/// A list of attributes: its length, then its attributes.
pub open spec fn attrs_bytes(attrs: Seq<AttributeView>) -> Seq<u8> {
    len_prefix(attrs.len()) + attrs_body(attrs)
}

/// The serialized fields of a config, without the discriminator.
pub open spec fn config_bytes(c: ConfigView) -> Seq<u8> {
    str_bytes(c.base_metadata_uri) + attrs_bytes(c.attributes)
}

/// Whether the config, after its discriminator, fits in the account.
pub open spec fn fits_account(c: ConfigView) -> bool {
    DISCRIMINATOR_LEN + config_bytes(c).len() <= ACCOUNT_SPACE
}

/// The full account data holding the config: discriminator, fields, zeros.
pub open spec fn account_image(c: ConfigView) -> Seq<u8> {
    METADATA_CONFIG_DISCRIMINATOR@ + config_bytes(c) + Seq::new(
        (ACCOUNT_SPACE - DISCRIMINATOR_LEN - config_bytes(c).len()) as nat,
        |i: int| 0u8,
    )
}

/// Appends the four little-endian bytes of `n`.
fn write_u32(out: &mut Vec<u8>, n: u32)
    ensures
        final(out)@ == old(out)@ + u32_le(n),
{
    out.push((n % 256) as u8);
    out.push(((n / 256) % 256) as u8);
    out.push(((n / 65536) % 256) as u8);
    out.push(((n / 16777216) % 256) as u8);
    assert(final(out)@ =~= old(out)@ + u32_le(n));
}

/// Appends a string with its length prefix.
pub(crate) fn write_str(out: &mut Vec<u8>, s: &String)
    ensures
        final(out)@ == old(out)@ + str_bytes(s@),
{
    let b = s.as_str().as_bytes();
    write_u32(out, b.len() as u32);
    let ghost start = out@;
    let mut i: usize = 0;
    while i < b.len()
        invariant
            b@ == encode_utf8(s@),
            i <= b@.len(),
            out@ == start + b@.subrange(0, i as int),
        decreases b@.len() - i,
    {
        out.push(b[i]);
        i += 1;
        assert(out@ =~= start + b@.subrange(0, i as int));
    }
    assert(b@.subrange(0, b@.len() as int) =~= b@);
    assert(out@ =~= old(out)@ + str_bytes(s@));
}

/// Appends a list of strings with its length prefix.
pub(crate) fn write_strs(out: &mut Vec<u8>, ss: &Vec<String>)
    ensures
        final(out)@ == old(out)@ + strs_bytes(ss.deep_view()),
{
    write_u32(out, ss.len() as u32);
    let ghost start = out@;
    let mut i: usize = 0;
    while i < ss.len()
        invariant
            i <= ss@.len(),
            out@ == start + strs_body(ss.deep_view().subrange(0, i as int)),
        decreases ss@.len() - i,
    {
        write_str(out, &ss[i]);
        assert(ss.deep_view().subrange(0, i + 1 as int).drop_last() =~= ss.deep_view().subrange(0, i as int));
        i += 1;
        assert(out@ =~= start + strs_body(ss.deep_view().subrange(0, i as int)));
    }
    assert(ss.deep_view().subrange(0, ss@.len() as int) =~= ss.deep_view());
    assert(out@ =~= old(out)@ + strs_bytes(ss.deep_view()));
}

/// Appends an attribute.
fn write_attr(out: &mut Vec<u8>, a: &Attribute)
    ensures
        final(out)@ == old(out)@ + attr_bytes(a@),
{
    let mut i: usize = 0;
    while i < 32
        invariant
            i <= 32,
            out@ == old(out)@ + a.address@.subrange(0, i as int),
        decreases 32 - i,
    {
        out.push(a.address[i]);
        i += 1;
        assert(out@ =~= old(out)@ + a.address@.subrange(0, i as int));
    }
    assert(a.address@.subrange(0, 32) =~= a.address@);
    write_str(out, &a.account_type);
    write_strs(out, &a.fields);
    assert(out@ =~= old(out)@ + attr_bytes(a@));
}

/// Appends a list of attributes with its length prefix.
pub(crate) fn write_attrs(out: &mut Vec<u8>, attrs: &Vec<Attribute>)
    ensures
        final(out)@ == old(out)@ + attrs_bytes(attributes_view(attrs@)),
{
    write_u32(out, attrs.len() as u32);
    let ghost start = out@;
    let ghost v = attributes_view(attrs@);
    let mut i: usize = 0;
    while i < attrs.len()
        invariant
            i <= attrs@.len(),
            v == attributes_view(attrs@),
            out@ == start + attrs_body(v.subrange(0, i as int)),
        decreases attrs@.len() - i,
    {
        write_attr(out, &attrs[i]);
        assert(v.subrange(0, i + 1 as int).drop_last() =~= v.subrange(0, i as int));
        i += 1;
        assert(out@ =~= start + attrs_body(v.subrange(0, i as int)));
    }
    assert(v.subrange(0, attrs@.len() as int) =~= v);
    assert(out@ =~= old(out)@ + attrs_bytes(v));
}

impl MetadataConfig {
    /// The account data that holds this config, or `None` when the
    /// discriminator and the serialized fields exceed the account's space.
    pub fn try_serialize(&self) -> (r: Option<Vec<u8>>)
        ensures
            fits_account(self@) ==> (r matches Some(data) && data@ == account_image(self@)),
            !fits_account(self@) ==> r is None,
    {
        let mut out: Vec<u8> = Vec::new();
        let mut i: usize = 0;
        while i < DISCRIMINATOR_LEN
            invariant
                i <= DISCRIMINATOR_LEN,
                out@ == METADATA_CONFIG_DISCRIMINATOR@.subrange(0, i as int),
            decreases DISCRIMINATOR_LEN - i,
        {
            out.push(METADATA_CONFIG_DISCRIMINATOR[i]);
            i += 1;
            assert(out@ =~= METADATA_CONFIG_DISCRIMINATOR@.subrange(0, i as int));
        }
        write_str(&mut out, &self.base_metadata_uri);
        write_attrs(&mut out, &self.attributes);
        assert(out@ =~= METADATA_CONFIG_DISCRIMINATOR@ + config_bytes(self@));
        if out.len() > ACCOUNT_SPACE {
            return None;
        }
        let ghost filled = out@;
        while out.len() < ACCOUNT_SPACE
            invariant
                filled.len() <= out@.len() <= ACCOUNT_SPACE,
                out@.subrange(0, filled.len() as int) == filled,
                forall|j: int| filled.len() <= j < out@.len() ==> out@[j] == 0u8,
            decreases ACCOUNT_SPACE - out@.len(),
        {
            out.push(0u8);
        }
        assert(out@ =~= account_image(self@));
        Some(out)
    }
}

/// The little-endian `u32` at `pos`, if four bytes are there.
pub open spec fn read_u32(d: Seq<u8>, pos: int) -> Option<u32> {
    if 0 <= pos && pos + 4 <= d.len() {
        Some(
            (d[pos] as int + 256 * (d[pos + 1] as int) + 65536 * (d[pos + 2] as int) + 16777216 * (
            d[pos + 3] as int)) as u32,
        )
    } else {
        None
    }
}

/// The length-prefixed UTF-8 string at `pos` and the position after it.
#[verifier::opaque]
pub open spec fn read_str(d: Seq<u8>, pos: int) -> Option<(Seq<char>, int)> {
    match read_u32(d, pos) {
        None => None,
        Some(n) => {
            let end = pos + 4 + n;
            if end <= d.len() && valid_utf8(d.subrange(pos + 4, end)) {
                Some((decode_utf8(d.subrange(pos + 4, end)), end))
            } else {
                None
            }
        },
    }
}

/// `n` strings one after the other from `pos`, and the position after them.
pub open spec fn read_strs_n(d: Seq<u8>, pos: int, n: nat) -> Option<(Seq<Seq<char>>, int)>
    decreases n,
{
    if n == 0 {
        Some((Seq::empty(), pos))
    } else {
        match read_strs_n(d, pos, (n - 1) as nat) {
            None => None,
            Some((ss, p)) => match read_str(d, p) {
                None => None,
                Some((s, q)) => Some((ss.push(s), q)),
            },
        }
    }
}

/// The length-prefixed list of strings at `pos`, and the position after it.
#[verifier::opaque]
pub open spec fn read_strs(d: Seq<u8>, pos: int) -> Option<(Seq<Seq<char>>, int)> {
    match read_u32(d, pos) {
        None => None,
        Some(n) => read_strs_n(d, pos + 4, n as nat),
    }
}

/// The attribute at `pos`, and the position after it.
#[verifier::opaque]
pub open spec fn read_attr(d: Seq<u8>, pos: int) -> Option<(AttributeView, int)> {
    if 0 <= pos && pos + 32 <= d.len() {
        match read_str(d, pos + 32) {
            None => None,
            Some((t, p)) => match read_strs(d, p) {
                None => None,
                Some((fs, q)) => Some(
                    (AttributeView { address: d.subrange(pos, pos + 32), account_type: t, fields: fs }, q),
                ),
            },
        }
    } else {
        None
    }
}

/// `n` attributes one after the other from `pos`, and the position after them.
pub open spec fn read_attrs_n(d: Seq<u8>, pos: int, n: nat) -> Option<(Seq<AttributeView>, int)>
    decreases n,
{
    if n == 0 {
        Some((Seq::empty(), pos))
    } else {
        match read_attrs_n(d, pos, (n - 1) as nat) {
            None => None,
            Some((xs, p)) => match read_attr(d, p) {
                None => None,
                Some((x, q)) => Some((xs.push(x), q)),
            },
        }
    }
}

/// The length-prefixed list of attributes at `pos`, and the position after it.
#[verifier::opaque]
pub open spec fn read_attrs(d: Seq<u8>, pos: int) -> Option<(Seq<AttributeView>, int)> {
    match read_u32(d, pos) {
        None => None,
        Some(n) => read_attrs_n(d, pos + 4, n as nat),
    }
}

/// The config held by account data: the discriminator must match, and the
/// fields are read in order; bytes after them are ignored.
pub open spec fn parse_config(d: Seq<u8>) -> Option<ConfigView> {
    if d.len() >= DISCRIMINATOR_LEN && d.subrange(0, DISCRIMINATOR_LEN as int)
        == METADATA_CONFIG_DISCRIMINATOR@ {
        match read_str(d, DISCRIMINATOR_LEN as int) {
            None => None,
            Some((uri, p)) => match read_attrs(d, p) {
                None => None,
                Some((attrs, q)) => Some(ConfigView { base_metadata_uri: uri, attributes: attrs }),
            },
        }
    } else {
        None
    }
}

/// Relies on `String::from_utf8`: the bytes become a string exactly when
/// they are valid UTF-8, and the string holds the characters they encode.
#[verifier::external_body]
fn string_from_utf8(bytes: Vec<u8>) -> (r: Option<String>)
    ensures
        r is Some <==> valid_utf8(bytes@),
        r matches Some(s) ==> s@ == decode_utf8(bytes@),
{
    String::from_utf8(bytes).ok()
}

/// Reads the little-endian `u32` at `pos`.
fn parse_u32(d: &Vec<u8>, pos: usize) -> (r: Option<u32>)
    ensures
        r == read_u32(d@, pos as int),
        r is Some ==> pos + 4 <= d@.len(),
{
    if pos > d.len() || d.len() - pos < 4 {
        return None;
    }
    let v: u32 = (d[pos] as u32) + 256 * (d[pos + 1] as u32) + 65536 * (d[pos + 2] as u32) + 16777216 * (
    d[pos + 3] as u32);
    Some(v)
}

/// Reads the length-prefixed string at `pos`.
fn parse_str(d: &Vec<u8>, pos: usize) -> (r: Option<(String, usize)>)
    ensures
        r matches Some((s, q)) ==> read_str(d@, pos as int) == Some((s@, q as int)),
        r is None ==> read_str(d@, pos as int) is None,
{
    reveal(read_str);
    let n = match parse_u32(d, pos) {
        None => {
            return None;
        },
        Some(n) => n as usize,
    };
    let len = d.len();
    let start = pos + 4;
    if len - start < n {
        return None;
    }
    let end = start + n;
    let mut bytes: Vec<u8> = Vec::new();
    let mut i: usize = start;
    while i < end
        invariant
            start <= i <= end <= d@.len(),
            bytes@ == d@.subrange(start as int, i as int),
        decreases end - i,
    {
        bytes.push(d[i]);
        i += 1;
        assert(bytes@ =~= d@.subrange(start as int, i as int));
    }
    match string_from_utf8(bytes) {
        None => None,
        Some(s) => Some((s, end)),
    }
}

/// Once `n` reads fail, every longer run of reads fails too.
proof fn lemma_strs_n_fail(d: Seq<u8>, pos: int, n: nat, m: nat)
    requires
        n <= m,
        read_strs_n(d, pos, n) is None,
    ensures
        read_strs_n(d, pos, m) is None,
    decreases m - n,
{
    if n < m {
        lemma_strs_n_fail(d, pos, n, (m - 1) as nat);
    }
}

/// Reads the length-prefixed list of strings at `pos`.
fn parse_strs(d: &Vec<u8>, pos: usize) -> (r: Option<(Vec<String>, usize)>)
    ensures
        r matches Some((ss, q)) ==> read_strs(d@, pos as int) == Some((ss.deep_view(), q as int)),
        r is None ==> read_strs(d@, pos as int) is None,
{
    reveal(read_strs);
    let n = match parse_u32(d, pos) {
        None => {
            return None;
        },
        Some(n) => n,
    };
    let len = d.len();
    let mut p: usize = pos + 4;
    let mut acc: Vec<String> = Vec::new();
    let mut i: u32 = 0;
    while i < n
        invariant
            i <= n,
            read_u32(d@, pos as int) == Some(n),
            read_strs_n(d@, pos + 4, i as nat) == Some((acc.deep_view(), p as int)),
        decreases n - i,
    {
        match parse_str(d, p) {
            None => {
                proof {
                    assert(read_strs_n(d@, pos + 4, (i + 1) as nat) is None);
                    lemma_strs_n_fail(d@, pos + 4, (i + 1) as nat, n as nat);
                    reveal(read_strs);
                }
                return None;
            },
            Some((s, q)) => {
                let ghost before = acc.deep_view();
                acc.push(s);
                assert(acc.deep_view() =~= before.push(s@));
                p = q;
            },
        }
        i += 1;
    }
    Some((acc, p))
}

/// Reads the attribute at `pos`.
fn parse_attr(d: &Vec<u8>, pos: usize) -> (r: Option<(Attribute, usize)>)
    ensures
        r matches Some((a, q)) ==> read_attr(d@, pos as int) == Some((a@, q as int)),
        r is None ==> read_attr(d@, pos as int) is None,
{
    reveal(read_attr);
    let len = d.len();
    if pos > len || len - pos < 32 {
        return None;
    }
    let mut address: [u8; 32] = [0u8; 32];
    let mut i: usize = 0;
    while i < 32
        invariant
            i <= 32,
            pos + 32 <= d@.len(),
            len == d@.len(),
            forall|j: int| 0 <= j < i ==> address@[j] == d@[pos + j],
        decreases 32 - i,
    {
        address[i] = d[pos + i];
        i += 1;
    }
    assert(address@ =~= d@.subrange(pos as int, pos + 32));
    let (account_type, p) = match parse_str(d, pos + 32) {
        None => {
            return None;
        },
        Some(x) => x,
    };
    let (fields, q) = match parse_strs(d, p) {
        None => {
            return None;
        },
        Some(x) => x,
    };
    Some((Attribute { address, account_type, fields }, q))
}

/// Once `n` reads fail, every longer run of reads fails too.
proof fn lemma_attrs_n_fail(d: Seq<u8>, pos: int, n: nat, m: nat)
    requires
        n <= m,
        read_attrs_n(d, pos, n) is None,
    ensures
        read_attrs_n(d, pos, m) is None,
    decreases m - n,
{
    if n < m {
        lemma_attrs_n_fail(d, pos, n, (m - 1) as nat);
    }
}

/// Reads the length-prefixed list of attributes at `pos`.
fn parse_attrs(d: &Vec<u8>, pos: usize) -> (r: Option<(Vec<Attribute>, usize)>)
    ensures
        r matches Some((xs, q)) ==> read_attrs(d@, pos as int) == Some((attributes_view(xs@), q as int)),
        r is None ==> read_attrs(d@, pos as int) is None,
{
    reveal(read_attrs);
    let n = match parse_u32(d, pos) {
        None => {
            return None;
        },
        Some(n) => n,
    };
    let len = d.len();
    let mut p: usize = pos + 4;
    let mut acc: Vec<Attribute> = Vec::new();
    let mut i: u32 = 0;
    while i < n
        invariant
            i <= n,
            read_u32(d@, pos as int) == Some(n),
            read_attrs_n(d@, pos + 4, i as nat) == Some((attributes_view(acc@), p as int)),
        decreases n - i,
    {
        match parse_attr(d, p) {
            None => {
                proof {
                    assert(read_attrs_n(d@, pos + 4, (i + 1) as nat) is None);
                    lemma_attrs_n_fail(d@, pos + 4, (i + 1) as nat, n as nat);
                    reveal(read_attrs);
                }
                return None;
            },
            Some((a, q)) => {
                let ghost before = attributes_view(acc@);
                acc.push(a);
                assert(attributes_view(acc@) =~= before.push(a@));
                p = q;
            },
        }
        i += 1;
    }
    Some((acc, p))
}

impl MetadataConfig {
    /// Reads a config back from account data: `None` when the discriminator
    /// does not match or the fields cannot be read.
    pub fn try_deserialize(data: &Vec<u8>) -> (r: Option<MetadataConfig>)
        ensures
            r matches Some(c) ==> parse_config(data@) == Some(c@),
            r is None ==> parse_config(data@) is None,
    {
        if data.len() < DISCRIMINATOR_LEN {
            return None;
        }
        let mut i: usize = 0;
        while i < DISCRIMINATOR_LEN
            invariant
                i <= DISCRIMINATOR_LEN <= data@.len(),
                forall|j: int| 0 <= j < i ==> data@[j] == METADATA_CONFIG_DISCRIMINATOR@[j],
            decreases DISCRIMINATOR_LEN - i,
        {
            if data[i] != METADATA_CONFIG_DISCRIMINATOR[i] {
                assert(data@.subrange(0, DISCRIMINATOR_LEN as int)[i as int] != METADATA_CONFIG_DISCRIMINATOR@[i as int]);
                return None;
            }
            i += 1;
        }
        assert(data@.subrange(0, DISCRIMINATOR_LEN as int) =~= METADATA_CONFIG_DISCRIMINATOR@);
        let (base_metadata_uri, p) = match parse_str(data, DISCRIMINATOR_LEN) {
            None => {
                return None;
            },
            Some(x) => x,
        };
        let (attributes, _q) = match parse_attrs(data, p) {
            None => {
                return None;
            },
            Some(x) => x,
        };
        Some(MetadataConfig { base_metadata_uri, attributes })
    }
}

/// Every attribute address of the config is 32 bytes long, as the
/// executable type guarantees.
pub open spec fn addresses_sized(c: ConfigView) -> bool {
    forall|i: int| 0 <= i < c.attributes.len() ==> (#[trigger] c.attributes[i]).address.len() == 32
}

/// A string whose UTF-8 length its prefix can hold.
pub open spec fn str_encodable(s: Seq<char>) -> bool {
    encode_utf8(s).len() <= u32::MAX
}

/// A list of strings whose length, and each of whose strings, a prefix can hold.
pub open spec fn strs_encodable(ss: Seq<Seq<char>>) -> bool {
    ss.len() <= u32::MAX && forall|i: int| 0 <= i < ss.len() ==> str_encodable(#[trigger] ss[i])
}

/// An attribute whose address is 32 bytes and whose strings and lists fit
/// their prefixes.
pub open spec fn attr_encodable(a: AttributeView) -> bool {
    a.address.len() == 32 && str_encodable(a.account_type) && strs_encodable(a.fields)
}

/// A list of attributes that fits its prefix, each of them encodable.
pub open spec fn attrs_encodable(attrs: Seq<AttributeView>) -> bool {
    attrs.len() <= u32::MAX && forall|i: int| 0 <= i < attrs.len() ==> attr_encodable(#[trigger] attrs[i])
}

proof fn lemma_read_u32(p: Seq<u8>, n: u32, r: Seq<u8>)
    ensures
        read_u32(p + u32_le(n) + r, p.len() as int) == Some(n),
{
    let d = p + u32_le(n) + r;
    let k = p.len() as int;
    assert(d[k] == (n % 256) as u8);
    assert(d[k + 1] == ((n / 256) % 256) as u8);
    assert(d[k + 2] == ((n / 65536) % 256) as u8);
    assert(d[k + 3] == ((n / 16777216) % 256) as u8);
    assert(n == (n % 256) + 256 * ((n / 256) % 256) + 65536 * ((n / 65536) % 256) + 16777216 * ((n
        / 16777216) % 256)) by (bit_vector);
}

proof fn lemma_read_str(p: Seq<u8>, s: Seq<char>, r: Seq<u8>)
    requires
        str_encodable(s),
    ensures
        read_str(p + str_bytes(s) + r, p.len() as int) == Some((s, (p.len() + str_bytes(s).len()) as int)),
{
    reveal(read_str);
    let e = encode_utf8(s);
    let d = p + str_bytes(s) + r;
    assert(d =~= p + u32_le(e.len() as u32) + (e + r));
    lemma_read_u32(p, e.len() as u32, e + r);
    assert(d.subrange(p.len() + 4 as int, p.len() + 4 + e.len() as int) =~= e);
    vstd::utf8::encode_utf8_valid_utf8(s);
    vstd::utf8::encode_utf8_decode_utf8(s);
}

proof fn lemma_read_strs_n(p: Seq<u8>, ss: Seq<Seq<char>>, r: Seq<u8>)
    requires
        forall|i: int| 0 <= i < ss.len() ==> str_encodable(#[trigger] ss[i]),
    ensures
        read_strs_n(p + strs_body(ss) + r, p.len() as int, ss.len()) == Some(
            (ss, (p.len() + strs_body(ss).len()) as int),
        ),
    decreases ss.len(),
{
    let d = p + strs_body(ss) + r;
    if ss.len() == 0 {
        assert(ss =~= Seq::<Seq<char>>::empty());
    } else {
        let init = ss.drop_last();
        let last = ss.last();
        assert(str_encodable(ss[ss.len() - 1]));
        assert forall|i: int| 0 <= i < init.len() implies str_encodable(#[trigger] init[i]) by {
            assert(init[i] == ss[i]);
        }
        assert(d =~= p + strs_body(init) + (str_bytes(last) + r));
        lemma_read_strs_n(p, init, str_bytes(last) + r);
        assert(d =~= (p + strs_body(init)) + str_bytes(last) + r);
        lemma_read_str(p + strs_body(init), last, r);
        assert(init.push(last) =~= ss);
    }
}

proof fn lemma_read_strs(p: Seq<u8>, ss: Seq<Seq<char>>, r: Seq<u8>)
    requires
        strs_encodable(ss),
    ensures
        read_strs(p + strs_bytes(ss) + r, p.len() as int) == Some((ss, (p.len() + strs_bytes(ss).len()) as int)),
{
    reveal(read_strs);
    let d = p + strs_bytes(ss) + r;
    assert(d =~= p + u32_le(ss.len() as u32) + (strs_body(ss) + r));
    lemma_read_u32(p, ss.len() as u32, strs_body(ss) + r);
    assert(d =~= (p + len_prefix(ss.len())) + strs_body(ss) + r);
    lemma_read_strs_n(p + len_prefix(ss.len()), ss, r);
}

proof fn lemma_read_attr(p: Seq<u8>, a: AttributeView, r: Seq<u8>)
    requires
        attr_encodable(a),
    ensures
        read_attr(p + attr_bytes(a) + r, p.len() as int) == Some((a, (p.len() + attr_bytes(a).len()) as int)),
{
    reveal(read_attr);
    let d = p + attr_bytes(a) + r;
    let k = p.len() as int;
    assert(d.subrange(k, k + 32) =~= a.address);
    assert(d =~= (p + a.address) + str_bytes(a.account_type) + (strs_bytes(a.fields) + r));
    lemma_read_str(p + a.address, a.account_type, strs_bytes(a.fields) + r);
    assert(d =~= (p + a.address + str_bytes(a.account_type)) + strs_bytes(a.fields) + r);
    lemma_read_strs(p + a.address + str_bytes(a.account_type), a.fields, r);
}

proof fn lemma_read_attrs_n(p: Seq<u8>, attrs: Seq<AttributeView>, r: Seq<u8>)
    requires
        forall|i: int| 0 <= i < attrs.len() ==> attr_encodable(#[trigger] attrs[i]),
    ensures
        read_attrs_n(p + attrs_body(attrs) + r, p.len() as int, attrs.len()) == Some(
            (attrs, (p.len() + attrs_body(attrs).len()) as int),
        ),
    decreases attrs.len(),
{
    let d = p + attrs_body(attrs) + r;
    if attrs.len() == 0 {
        assert(attrs =~= Seq::<AttributeView>::empty());
    } else {
        let init = attrs.drop_last();
        let last = attrs.last();
        assert(attr_encodable(attrs[attrs.len() - 1]));
        assert forall|i: int| 0 <= i < init.len() implies attr_encodable(#[trigger] init[i]) by {
            assert(init[i] == attrs[i]);
        }
        assert(d =~= p + attrs_body(init) + (attr_bytes(last) + r));
        lemma_read_attrs_n(p, init, attr_bytes(last) + r);
        assert(d =~= (p + attrs_body(init)) + attr_bytes(last) + r);
        lemma_read_attr(p + attrs_body(init), last, r);
        assert(init.push(last) =~= attrs);
    }
}

proof fn lemma_read_attrs(p: Seq<u8>, attrs: Seq<AttributeView>, r: Seq<u8>)
    requires
        attrs_encodable(attrs),
    ensures
        read_attrs(p + attrs_bytes(attrs) + r, p.len() as int) == Some(
            (attrs, (p.len() + attrs_bytes(attrs).len()) as int),
        ),
{
    reveal(read_attrs);
    let d = p + attrs_bytes(attrs) + r;
    let q = p + len_prefix(attrs.len());
    assert(d =~= p + u32_le(attrs.len() as u32) + (attrs_body(attrs) + r));
    lemma_read_u32(p, attrs.len() as u32, attrs_body(attrs) + r);
    assert(read_u32(d, p.len() as int) == Some(attrs.len() as u32));
    assert(d =~= q + attrs_body(attrs) + r);
    lemma_read_attrs_n(q, attrs, r);
    assert(q.len() == p.len() + 4);
    assert(read_attrs_n(d, p.len() + 4 as int, attrs.len()) == Some((attrs, (q.len() + attrs_body(attrs).len()) as int)));
}

/// Reading back the account data written for an encodable config gives
/// that config.
proof fn lemma_image_encodable_round_trip(c: ConfigView)
    requires
        fits_account(c),
        str_encodable(c.base_metadata_uri),
        attrs_encodable(c.attributes),
    ensures
        parse_config(account_image(c)) == Some(c),
{
    let zeros = Seq::new((ACCOUNT_SPACE - DISCRIMINATOR_LEN - config_bytes(c).len()) as nat, |i: int| 0u8);
    let d = account_image(c);
    let disc = METADATA_CONFIG_DISCRIMINATOR@;
    assert(d.subrange(0, DISCRIMINATOR_LEN as int) =~= disc);
    assert(d =~= disc + str_bytes(c.base_metadata_uri) + (attrs_bytes(c.attributes) + zeros));
    lemma_read_str(disc, c.base_metadata_uri, attrs_bytes(c.attributes) + zeros);
    assert(d =~= (disc + str_bytes(c.base_metadata_uri)) + attrs_bytes(c.attributes) + zeros);
    lemma_read_attrs(disc + str_bytes(c.base_metadata_uri), c.attributes, zeros);
}

proof fn lemma_strs_body_bounds(ss: Seq<Seq<char>>)
    ensures
        4 * ss.len() <= strs_body(ss).len(),
        forall|i: int| 0 <= i < ss.len() ==> encode_utf8(#[trigger] ss[i]).len() + 4 <= strs_body(ss).len(),
    decreases ss.len(),
{
    if ss.len() > 0 {
        let init = ss.drop_last();
        lemma_strs_body_bounds(init);
        assert forall|i: int| 0 <= i < ss.len() implies encode_utf8(#[trigger] ss[i]).len() + 4 <= strs_body(ss).len() by {
            if i < ss.len() - 1 {
                assert(ss[i] == init[i]);
            }
        }
    }
}

proof fn lemma_attrs_body_bounds(attrs: Seq<AttributeView>)
    ensures
        8 * attrs.len() <= attrs_body(attrs).len(),
        forall|i: int| 0 <= i < attrs.len() ==> attr_bytes(#[trigger] attrs[i]).len() <= attrs_body(attrs).len(),
    decreases attrs.len(),
{
    if attrs.len() > 0 {
        let init = attrs.drop_last();
        lemma_attrs_body_bounds(init);
        assert forall|i: int| 0 <= i < attrs.len() implies attr_bytes(#[trigger] attrs[i]).len() <= attrs_body(attrs).len() by {
            if i < attrs.len() - 1 {
                assert(attrs[i] == init[i]);
            }
        }
    }
}

/// Round trip: the account data written for a config that fits in the
/// account reads back as that same config, its base URI and every attribute
/// included.
pub proof fn lemma_round_trip(c: ConfigView)
    requires
        fits_account(c),
        addresses_sized(c),
    ensures
        parse_config(account_image(c)) == Some(c),
{
    lemma_attrs_body_bounds(c.attributes);
    assert forall|i: int| 0 <= i < c.attributes.len() implies attr_encodable(#[trigger] c.attributes[i]) by {
        let a = c.attributes[i];
        lemma_strs_body_bounds(a.fields);
    }
    lemma_image_encodable_round_trip(c);
}

} // verus!
