//! The keys that identify the endpoints, and how they are given on the command line.

use crate::path_link;
use crate::path_link::{
    resolve_interface_ipv4, BindAddr, InterfaceBinding, InterfaceEntry, InterfaceError,
};
use crate::remote;
use crate::text;
use crate::text::split_at_last;
use data_encoding::HEXLOWER;
use iroh::{EndpointId, SecretKey};
use std::str::FromStr;
use vstd::prelude::*;

verus! {

/// The relay that is used if none is given.
pub const DEFAULT_RELAY_URL: &'static str = "https://euc1-1.relay.n0.iroh-canary.iroh.link";

/// Bytes as hexadecimal digits, two for each byte.
pub open spec fn hex_of(bytes: Seq<u8>) -> Seq<char> {
    Seq::new(
        2 * bytes.len(),
        |i: int|
            remote::hex_char(
                if i % 2 == 0 {
                    (bytes[i / 2] / 16) as nat
                } else {
                    (bytes[i / 2] % 16) as nat
                },
            ),
    )
}

/// The secret key that a text gives, if it gives one.
pub uninterp spec fn secret_of(text: Seq<char>) -> Option<Seq<u8>>;

/// The identifier of the endpoint that a secret key belongs to.
pub uninterp spec fn endpoint_id_of(secret: Seq<u8>) -> Seq<char>;

/// The identifier of an endpoint that a text gives, if it gives one.
pub uninterp spec fn endpoint_of(text: Seq<char>) -> Option<Seq<char>>;

/// The most characters that a key or an identifier is written with.
pub const MAX_KEY_CHARS: usize = 64;

/// The secret key that a text gives, if it gives one. A text that is too long gives none.
pub open spec fn key_in(text: Seq<char>) -> Option<Seq<u8>> {
    if text.len() > MAX_KEY_CHARS {
        None
    } else {
        secret_of(text)
    }
}

/// The identifier of an endpoint that a text gives, if it gives one. A text that is too long gives
/// none.
pub open spec fn endpoint_in(text: Seq<char>) -> Option<Seq<char>> {
    if text.len() > MAX_KEY_CHARS {
        None
    } else {
        endpoint_of(text)
    }
}

/// The digits of a key give that key.
pub open spec fn reads_digits(text: Seq<char>, secret: Option<[u8; 32]>) -> bool {
    forall|bytes: Seq<u8>|
        bytes.len() == 32 && text == #[trigger] hex_of(bytes) ==> (secret matches Some(found)
            && found@ == bytes)
}

/// `FromStr` for `iroh::SecretKey`: a text of as many characters as two for each byte of a key is
/// read as lower-case hexadecimal digits, so the digits of a key give that key; any other text is
/// read in another encoding. A text with more than `usize::MAX / 8` bytes would panic, so one with
/// more than a quarter as many characters is left out.
#[verifier::external_body]
fn parse_secret(text: &str) -> (secret: Option<[u8; 32]>)
    requires
        text@.len() <= usize::MAX / 32,
    ensures
        match secret_of(text@) {
            Some(bytes) => secret matches Some(found) && found@ == bytes,
            None => secret is None,
        },
        reads_digits(text@, secret),
{
    SecretKey::from_str(text).ok().map(|key| key.to_bytes())
}

/// `SecretKey::generate`: a key made of random bytes.
#[verifier::external_body]
fn generate_secret() -> (secret: [u8; 32]) {
    SecretKey::generate().to_bytes()
}

/// `Display` for the key that `SecretKey::public` gives: the identifier of the endpoint.
#[verifier::external_body]
fn display_endpoint(secret: &[u8; 32]) -> (id: String)
    ensures
        id@ == endpoint_id_of(secret@),
{
    SecretKey::from_bytes(secret).public().to_string()
}

/// `FromStr` for `iroh::EndpointId`, and `Display` for what it gives. A text with more than
/// `usize::MAX / 8` bytes would panic, so one with more than a quarter as many characters is left
/// out.
#[verifier::external_body]
fn parse_endpoint(text: &str) -> (id: Option<String>)
    requires
        text@.len() <= usize::MAX / 32,
    ensures
        match endpoint_of(text@) {
            Some(written) => id matches Some(found) && found@ == written,
            None => id is None,
        },
{
    EndpointId::from_str(text).ok().map(|id| id.to_string())
}

/// `data_encoding::Encoding::encode` of `HEXLOWER`, for a key: two lower-case digits for each byte.
#[verifier::external_body]
fn encode_hex(bytes: &[u8; 32]) -> (digits: String)
    ensures
        digits@ == hex_of(bytes@),
{
    HEXLOWER.encode(bytes)
}

/// Reads a key; a text that is too long for one is not looked at.
fn read_key(text: &str) -> (secret: Option<[u8; 32]>)
    ensures
        match key_in(text@) {
            Some(bytes) => secret matches Some(found) && found@ == bytes,
            None => secret is None,
        },
        reads_digits(text@, secret),
{
    if text.unicode_len() > MAX_KEY_CHARS {
        return None;
    }
    parse_secret(text)
}

/// Reads the identifier of an endpoint; a text that is too long for one is not looked at.
fn read_endpoint(text: &str) -> (id: Option<String>)
    ensures
        match endpoint_in(text@) {
            Some(written) => id matches Some(found) && found@ == written,
            None => id is None,
        },
{
    if text.unicode_len() > MAX_KEY_CHARS {
        return None;
    }
    parse_endpoint(text)
}

/// The secret key of an endpoint, as it is given on the command line.
#[derive(Debug, Clone, Copy, PartialEq, Eq)]
pub enum SecretArg {
    Generate,
    Provided([u8; 32]),
}

impl Default for SecretArg {
    /// A key is made.
    fn default() -> (arg: SecretArg)
        ensures
            arg is Generate,
    {
        SecretArg::Generate
    }
}

impl SecretArg {
    /// Reads the key, or that one is to be made if the text is empty. The digits that are printed
    /// of a key give that key back.
    pub fn from_str(s: &str) -> (result: Result<SecretArg, String>)
        ensures
            if s@.len() == 0 {
                result matches Ok(arg) && arg is Generate
            } else {
                match key_in(s@) {
                    Some(bytes) => result matches Ok(SecretArg::Provided(secret)) && secret@
                        == bytes,
                    None => result matches Err(error) && error@
                        == "invalid --secret; expected iroh secret key hex"@,
                }
            },
            forall|bytes: Seq<u8>|
                bytes.len() == 32 && s@ == #[trigger] hex_of(bytes) ==> (result matches Ok(
                    SecretArg::Provided(secret),
                ) && secret@ == bytes),
    {
        if s.unicode_len() == 0 {
            return Ok(SecretArg::Generate);
        }
        match read_key(s) {
            Some(secret) => Ok(SecretArg::Provided(secret)),
            None => Err("invalid --secret; expected iroh secret key hex".to_owned()),
        }
    }

    pub fn provided(&self) -> (secret: Option<&[u8; 32]>)
        ensures
            match *self {
                SecretArg::Generate => secret is None,
                SecretArg::Provided(bytes) => secret matches Some(found) && *found == bytes,
            },
    {
        match self {
            SecretArg::Generate => None,
            SecretArg::Provided(secret) => Some(secret),
        }
    }

    /// The key that was given, or a new one. Of a new one nothing is known.
    pub fn resolve(&self) -> (secret: [u8; 32])
        ensures
            *self matches SecretArg::Provided(bytes) ==> secret == bytes,
    {
        match self {
            SecretArg::Generate => generate_secret(),
            SecretArg::Provided(secret) => *secret,
        }
    }
}

/// An interface as it is given on the command line, with the secret key of its endpoint if there is
/// one.
#[derive(Debug)]
pub struct InterfaceSpec {
    pub name: String,
    pub secret: Option<[u8; 32]>,
}

impl InterfaceSpec {
    /// Reads a name, or a name and a key behind a colon. The digits that are printed of a key give
    /// that key back.
    pub fn from_str(s: &str) -> (result: Result<InterfaceSpec, String>)
        ensures
            match text::last_place(s@, ':') {
                Some(place) => if place == 0 {
                    result matches Err(error) && error@ == "interface name cannot be empty"@
                } else {
                    match key_in(s@.skip((place + 1) as int)) {
                        Some(bytes) => result matches Ok(spec) && spec.name@ == s@.take(
                            place as int,
                        ) && (spec.secret matches Some(secret) && secret@ == bytes),
                        None => result matches Err(error) && error@
                            == "invalid interface secret; expected iroh secret key hex"@,
                    }
                },
                None => if s@.len() == 0 {
                    result matches Err(error) && error@ == "interface name cannot be empty"@
                } else {
                    result matches Ok(spec) && spec.name@ == s@ && spec.secret is None
                },
            },
            forall|bytes: Seq<u8>|
                bytes.len() == 32 && (text::last_place(s@, ':') matches Some(place) && place > 0
                    && s@.skip((place + 1) as int) == #[trigger] hex_of(bytes)) ==> (result matches Ok(
                    spec,
                ) && (spec.secret matches Some(secret) && secret@ == bytes)),
    {
        proof {
            text::lemma_last_place(s@, ':');
        }
        if let Some((name, secret)) = split_at_last(s, ':') {
            if name.as_str().unicode_len() == 0 {
                return Err("interface name cannot be empty".to_owned());
            }
            return match read_key(secret.as_str()) {
                Some(secret) => Ok(InterfaceSpec { name, secret: Some(secret) }),
                None => Err(
                    "invalid interface secret; expected iroh secret key hex".to_owned(),
                ),
            };
        }
        if s.unicode_len() == 0 {
            return Err("interface name cannot be empty".to_owned());
        }
        Ok(InterfaceSpec { name: s.to_owned(), secret: None })
    }
}

/// An interface that can be used: the address it is bound to, and the key of its endpoint.
#[derive(Debug)]
pub struct InterfaceConfig {
    pub binding: InterfaceBinding,
    pub endpoint_id: String,
    pub secret_key: [u8; 32],
}

/// The interface has its first address, and the endpoint has the key that was given, or a new one.
pub open spec fn is_configured(
    config: InterfaceConfig,
    spec: InterfaceSpec,
    entries: Seq<InterfaceEntry>,
) -> bool {
    &&& path_link::first_ipv4(entries, spec.name@) matches Some(ip) && config.binding.bind_addr == (
    BindAddr { ip, port: 0 })
    &&& config.binding.name@ == spec.name@
    &&& config.binding.display_name@ == spec.name@
    &&& config.endpoint_id@ == endpoint_id_of(config.secret_key@)
    &&& spec.secret matches Some(secret) ==> config.secret_key == secret
}

/// Finds the address of an interface and the key of its endpoint. Of a new key nothing is known.
pub fn build_interface_config(spec: &InterfaceSpec, entries: &[InterfaceEntry]) -> (result: Result<
    InterfaceConfig,
    InterfaceError,
>)
    ensures
        match path_link::first_ipv4(entries@, spec.name@) {
            Some(_) => result matches Ok(config) && is_configured(config, *spec, entries@),
            None => result == Err::<InterfaceConfig, InterfaceError>(
                if path_link::is_listed(entries@, spec.name@) {
                    InterfaceError::NoIpv4
                } else {
                    InterfaceError::Missing
                },
            ),
        },
{
    let secret_key = match spec.secret {
        Some(secret) => secret,
        None => generate_secret(),
    };
    match resolve_interface_ipv4(entries, spec.name.as_str()) {
        Ok(binding) => {
            let endpoint_id = display_endpoint(&secret_key);
            Ok(InterfaceConfig { binding, endpoint_id, secret_key })
        },
        Err(error) => Err(error),
    }
}

/// Whether an interface has an address.
pub open spec fn has_ipv4(entries: Seq<InterfaceEntry>, spec: InterfaceSpec) -> bool {
    path_link::first_ipv4(entries, spec.name@) is Some
}

/// Finds the addresses of interfaces and the keys of their endpoints. The first interface that
/// cannot be used is the error, with what is wrong with it.
pub fn parse_interface_configs(specs: &[InterfaceSpec], entries: &[InterfaceEntry]) -> (result:
    Result<Vec<InterfaceConfig>, (usize, InterfaceError)>)
    ensures
        match result {
            Ok(configs) => configs@.len() == specs@.len() && forall|i: int|
                0 <= i < specs@.len() ==> is_configured(
                    #[trigger] configs@[i],
                    specs@[i],
                    entries@,
                ),
            Err((place, error)) => {
                &&& place < specs@.len()
                &&& !has_ipv4(entries@, specs@[place as int])
                &&& forall|i: int| 0 <= i < place ==> has_ipv4(entries@, #[trigger] specs@[i])
                &&& error == (if path_link::is_listed(entries@, specs@[place as int].name@) {
                    InterfaceError::NoIpv4
                } else {
                    InterfaceError::Missing
                })
            },
        },
        result is Ok <==> forall|i: int|
            0 <= i < specs@.len() ==> has_ipv4(entries@, #[trigger] specs@[i]),
{
    let mut configs: Vec<InterfaceConfig> = Vec::new();
    for i in 0..specs.len()
        invariant
            configs@.len() == i,
            forall|j: int|
                0 <= j < i ==> is_configured(#[trigger] configs@[j], specs@[j], entries@),
            forall|j: int| 0 <= j < i ==> has_ipv4(entries@, #[trigger] specs@[j]),
    {
        match build_interface_config(&specs[i], entries) {
            Ok(config) => {
                configs.push(config);
            },
            Err(error) => {
                assert(!has_ipv4(entries@, specs@[i as int]));
                return Err((i, error));
            },
        }
    }
    Ok(configs)
}

/// An endpoint and the throughput that is aimed at, as they are given on the command line.
#[derive(Debug)]
pub struct TargetParts {
    pub endpoint_id: String,
    pub target_mbps: String,
}

/// Reads an endpoint and, behind a colon, a throughput; whether that is a number is not looked at.
pub fn parse_endpoint_target(s: &str) -> (result: Result<TargetParts, String>)
    ensures
        match text::last_place(s@, ':') {
            Some(place) => match endpoint_in(s@.take(place as int)) {
                Some(id) => result matches Ok(parts) && parts.endpoint_id@ == id
                    && parts.target_mbps@ == s@.skip((place + 1) as int),
                None => result matches Err(error) && error@
                    == "invalid --endpoint-target endpoint id"@,
            },
            None => result matches Err(error) && error@
                == "invalid --endpoint-target; expected <endpoint_id>:<mbps>"@,
        },
{
    match split_at_last(s, ':') {
        Some((id, target_mbps)) => match read_endpoint(id.as_str()) {
            Some(endpoint_id) => Ok(TargetParts { endpoint_id, target_mbps }),
            None => Err("invalid --endpoint-target endpoint id".to_owned()),
        },
        None => Err("invalid --endpoint-target; expected <endpoint_id>:<mbps>".to_owned()),
    }
}

/// The address that the server forwards to: a port of this machine.
pub fn local_udp_dest(port: u16) -> (addr: BindAddr)
    ensures
        addr == (BindAddr { ip: 0x7f00_0001, port }),
{
    BindAddr { ip: 0x7f00_0001, port }
}

/// The relays that are used: those that are given, or the default one.
pub fn effective_relays(relays: Vec<String>) -> (used: Vec<String>)
    ensures
        if relays@.len() == 0 {
            used@.len() == 1 && used@[0]@ == DEFAULT_RELAY_URL@
        } else {
            used == relays
        },
{
    if relays.len() > 0 {
        return relays;
    }
    let mut used: Vec<String> = Vec::new();
    used.push(DEFAULT_RELAY_URL.to_owned());
    used
}

/// The lines for the secret keys of endpoints: for each its key and its identifier, and an empty
/// line between them.
pub open spec fn identity_text(secrets: Seq<[u8; 32]>) -> Seq<Seq<char>>
    decreases secrets.len(),
{
    if secrets.len() == 0 {
        Seq::empty()
    } else {
        let before = identity_text(secrets.drop_last());
        let pair = seq![
            "secret="@ + hex_of(secrets.last()@),
            "endpoint="@ + endpoint_id_of(secrets.last()@),
        ];
        if secrets.len() == 1 {
            pair
        } else {
            before.push(Seq::empty()) + pair
        }
    }
}

/// The lines for the secret keys of endpoints.
pub fn identity_lines(secrets: &[[u8; 32]]) -> (lines: Vec<String>)
    ensures
        text::texts(lines@) == identity_text(secrets@),
{
    let mut lines: Vec<String> = Vec::new();
    assert(text::texts(lines@) =~= Seq::<Seq<char>>::empty());
    for i in 0..secrets.len()
        invariant
            text::texts(lines@) == identity_text(secrets@.take(i as int)),
    {
        let ghost before = identity_text(secrets@.take(i as int));
        assert(secrets@.take(i + 1).drop_last() =~= secrets@.take(i as int));
        if i > 0 {
            lines.push(String::new());
            assert(text::texts(lines@) =~= before.push(Seq::empty()));
        }
        let ghost earlier = text::texts(lines@);
        let mut secret = "secret=".to_owned();
        secret.append(encode_hex(&secrets[i]).as_str());
        let mut endpoint = "endpoint=".to_owned();
        endpoint.append(display_endpoint(&secrets[i]).as_str());
        lines.push(secret);
        lines.push(endpoint);
        assert(text::texts(lines@) =~= earlier + seq![
            "secret="@ + hex_of(secrets@[i as int]@),
            "endpoint="@ + endpoint_id_of(secrets@[i as int]@),
        ]);
        if i == 0 {
            assert(earlier =~= Seq::<Seq<char>>::empty());
            assert(text::texts(lines@) =~= identity_text(secrets@.take(1)));
        }
    }
    assert(secrets@.take(secrets@.len() as int) =~= secrets@);
    lines
}

/// New secret keys. Of the keys nothing is known.
pub fn generate_identities(count: usize) -> (secrets: Vec<[u8; 32]>)
    ensures
        secrets@.len() == count,
{
    let mut secrets: Vec<[u8; 32]> = Vec::new();
    for i in 0..count
        invariant
            secrets@.len() == i,
    {
        secrets.push(generate_secret());
    }
    secrets
}

} // verus!
