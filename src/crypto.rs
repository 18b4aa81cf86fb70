use vstd::prelude::*;

verus! {

/// Lowercase hexadecimal digits, indexed by value.
pub open spec fn hex_digits() -> Seq<char> {
    seq!['0', '1', '2', '3', '4', '5', '6', '7', '8', '9', 'a', 'b', 'c', 'd', 'e', 'f']
}

/// Lowercase hexadecimal text of a byte string, two digits per byte, high nibble first.
pub open spec fn hex_text(b: Seq<u8>) -> Seq<char>
    decreases b.len(),
{
    if b.len() == 0 {
        Seq::empty()
    } else {
        seq![hex_digits()[(b[0] / 16) as int], hex_digits()[(b[0] % 16) as int]] + hex_text(b.drop_first())
    }
}

/// The unsigned integer a byte string denotes, most significant byte first.
pub open spec fn be_value(b: Seq<u8>) -> nat
    decreases b.len(),
{
    if b.len() == 0 {
        0
    } else {
        be_value(b.drop_last()) * 256 + b.last() as nat
    }
}

/// The unsigned integer a byte string denotes, least significant byte first.
pub open spec fn le_value(b: Seq<u8>) -> nat
    decreases b.len(),
{
    if b.len() == 0 {
        0
    } else {
        le_value(b.drop_first()) * 256 + b[0] as nat
    }
}

/// A 256-bit number written as four 64-bit words, most significant first.
pub open spec fn from_words(a: nat, b: nat, c: nat, d: nat) -> nat {
    let w: nat = 0x1_0000_0000 * 0x1_0000_0000;
    ((a * w + b) * w + c) * w + d
}

/// Order of the secp256k1 group.
pub open spec fn secp256k1_order() -> nat {
    from_words(0xFFFFFFFFFFFFFFFF, 0xFFFFFFFFFFFFFFFE, 0xBAAEDCE6AF48A03B, 0xBFD25E8CD0364141)
}

/// Order of the prime-order subgroup of the ed25519 curve.
pub open spec fn ed25519_order() -> nat {
    from_words(0x1000000000000000, 0, 0x14DEF9DEA2F79CD6, 0x5812631A5CF5D3ED)
}

/// A valid secp256k1 secret: 32 bytes, big-endian value in [1, n).
pub open spec fn secp_scalar_ok(b: Seq<u8>) -> bool {
    b.len() == 32 && 0 < be_value(b) && be_value(b) < secp256k1_order()
}

/// A canonical ed25519 scalar: 32 bytes, little-endian value below l.
pub open spec fn ed_scalar_ok(b: Seq<u8>) -> bool {
    b.len() == 32 && le_value(b) < ed25519_order()
}

/// HASH160 of the compressed secp256k1 public key of a secret.
pub uninterp spec fn pubkey_hash_of(secret: Seq<u8>) -> Seq<u8>;

/// The 65-byte uncompressed secp256k1 public key of a secret.
pub uninterp spec fn uncompressed_point_of(secret: Seq<u8>) -> Seq<u8>;

/// Keccak-256 digest of a byte string.
pub uninterp spec fn keccak_of(data: Seq<u8>) -> Seq<u8>;

/// Base58Check text of a payload (double-SHA-256 checksum appended).
pub uninterp spec fn base58check_of(data: Seq<u8>) -> Seq<char>;

/// Base58 text (Bitcoin alphabet, no checksum) of a byte string.
pub uninterp spec fn base58_of(data: Seq<u8>) -> Seq<char>;

/// The 32-byte ed25519 public key whose secret seed is given.
pub uninterp spec fn ed25519_public_of(seed: Seq<u8>) -> Seq<u8>;

/// Standard Monero address of a spend and a view secret.
pub uninterp spec fn xmr_address_of(spend: Seq<u8>, view: Seq<u8>, mainnet: bool) -> Seq<char>;

/// Relies on secp256k1::SecretKey::from_slice, which accepts exactly the
/// 32-byte strings that libsecp256k1 verifies: nonzero and below the curve order.
#[verifier::external_body]
pub(crate) fn secp_secret_ok(b: &Vec<u8>) -> (r: bool)
    ensures
        r == secp_scalar_ok(b@),
{
    bitcoin::secp256k1::SecretKey::from_slice(b.as_slice()).is_ok()
}

/// Relies on bitcoin::PublicKey::pubkey_hash of the compressed key that
/// secp256k1 derives from a valid secret: a 20-byte HASH160.
#[verifier::external_body]
pub(crate) fn secp_pubkey_hash(secret: &Vec<u8>) -> (r: Vec<u8>)
    requires
        secp_scalar_ok(secret@),
    ensures
        r@ == pubkey_hash_of(secret@),
        r@.len() == 20,
{
    let secp = bitcoin::secp256k1::Secp256k1::new();
    let sk = bitcoin::secp256k1::SecretKey::from_slice(secret.as_slice()).unwrap();
    let pk = bitcoin::PublicKey::new(bitcoin::secp256k1::PublicKey::from_secret_key(&secp, &sk));
    bitcoin::hashes::Hash::into_inner(pk.pubkey_hash()).to_vec()
}

/// Relies on secp256k1::PublicKey::serialize_uncompressed of the key derived
/// from a valid secret: 65 bytes, a 0x04 tag then X and Y.
#[verifier::external_body]
pub(crate) fn secp_uncompressed_point(secret: &Vec<u8>) -> (r: Vec<u8>)
    requires
        secp_scalar_ok(secret@),
    ensures
        r@ == uncompressed_point_of(secret@),
        r@.len() == 65,
{
    let secp = bitcoin::secp256k1::Secp256k1::new();
    let sk = bitcoin::secp256k1::SecretKey::from_slice(secret.as_slice()).unwrap();
    bitcoin::secp256k1::PublicKey::from_secret_key(&secp, &sk).serialize_uncompressed().to_vec()
}

/// Relies on web3::signing::keccak256: a 32-byte digest.
#[verifier::external_body]
pub(crate) fn keccak256(data: &[u8]) -> (r: Vec<u8>)
    ensures
        r@ == keccak_of(data@),
        r@.len() == 32,
{
    web3::signing::keccak256(data).to_vec()
}

/// Relies on bitcoin::util::base58::check_encode_slice.
#[verifier::external_body]
pub(crate) fn base58check(data: &Vec<u8>) -> (r: String)
    ensures
        r@ == base58check_of(data@),
{
    bitcoin::util::base58::check_encode_slice(data.as_slice())
}

/// Relies on hex::encode: two lowercase digits per byte, high nibble first.
#[verifier::external_body]
pub(crate) fn hex_encode(data: &[u8]) -> (r: String)
    ensures
        r@ == hex_text(data@),
{
    hex::encode(data)
}

/// Relies on bs58::encode(..).into_string(): base58 in the Bitcoin
/// alphabet, the form in which Solana writes an account key.
#[verifier::external_body]
pub(crate) fn base58(data: &Vec<u8>) -> (r: String)
    ensures
        r@ == base58_of(data@),
{
    bs58::encode(data.as_slice()).into_string()
}

/// Relies on ed25519_dalek's PublicKey::from of a 32-byte secret seed: the
/// 32-byte compressed public key.
#[verifier::external_body]
pub(crate) fn ed25519_public(seed: &Vec<u8>) -> (r: Vec<u8>)
    requires
        seed@.len() == 32,
    ensures
        r@ == ed25519_public_of(seed@),
        r@.len() == 32,
{
    let sk = ed25519_dalek::SecretKey::from_bytes(seed.as_slice()).unwrap();
    ed25519_dalek::PublicKey::from(&sk).to_bytes().to_vec()
}

/// Relies on monero::PrivateKey::from_slice, which accepts exactly the
/// 32-byte canonical scalars.
#[verifier::external_body]
pub(crate) fn xmr_scalar_ok(b: &[u8]) -> (r: bool)
    ensures
        r == ed_scalar_ok(b@),
{
    monero::PrivateKey::from_slice(b).is_ok()
}

/// Relies on monero::Address::standard over the public keys of the two
/// secrets, printed in its base58 form.
#[verifier::external_body]
pub(crate) fn xmr_address(spend: &[u8], view: &[u8], mainnet: bool) -> (r: String)
    requires
        ed_scalar_ok(spend@),
        ed_scalar_ok(view@),
    ensures
        r@ == xmr_address_of(spend@, view@, mainnet),
{
    let s = monero::PrivateKey::from_slice(spend).unwrap();
    let v = monero::PrivateKey::from_slice(view).unwrap();
    let net = if mainnet { monero::Network::Mainnet } else { monero::Network::Testnet };
    let ps = monero::PublicKey::from_private_key(&s);
    let pv = monero::PublicKey::from_private_key(&v);
    monero::Address::standard(net, ps, pv).to_string()
}

/// Relies on rand's OsRng::try_fill_bytes; the bytes themselves are unknown.
#[verifier::external_body]
pub(crate) fn random_bytes(n: usize) -> (r: Option<Vec<u8>>)
    ensures
        r matches Some(v) ==> v@.len() == n,
{
    let mut buf = vec![0u8; n];
    match rand::RngCore::try_fill_bytes(&mut rand::rngs::OsRng, &mut buf) {
        Ok(()) => Some(buf),
        Err(_) => None,
    }
}

} // verus!
