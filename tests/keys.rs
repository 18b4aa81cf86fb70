use chainswap::chain::{ChainId, NetworkKind};
use chainswap::keys::{derive_keys, first_valid, generate, keys_from_draw, KeyError};

fn key_one() -> Vec<u8> {
    let mut v = vec![0u8; 32];
    v[31] = 1;
    v
}

#[test]
fn btc_address_of_key_one() {
    let k = derive_keys(ChainId::Btc, NetworkKind::Mainnet, &key_one()).unwrap();
    assert_eq!(k.address, "1BgGZ9tcN4rm9KBzDn7KprQz87SZ26SAMH");
    assert_eq!(k.secret, key_one());
    assert!(k.view_secret.is_empty());
}

#[test]
fn btc_testnet_address_differs() {
    let k = derive_keys(ChainId::Btc, NetworkKind::Testnet, &key_one()).unwrap();
    assert!(k.address.starts_with('m') || k.address.starts_with('n'));
}

#[test]
fn ltc_uses_its_own_version_byte() {
    let b = derive_keys(ChainId::Btc, NetworkKind::Mainnet, &key_one()).unwrap();
    let l = derive_keys(ChainId::Ltc, NetworkKind::Mainnet, &key_one()).unwrap();
    assert!(l.address.starts_with('L'));
    assert_ne!(b.address, l.address);
}

#[test]
fn eth_address_of_key_one() {
    let k = derive_keys(ChainId::Eth, NetworkKind::Mainnet, &key_one()).unwrap();
    assert_eq!(k.address, "0x7e5f4552091a69125d5dfcb7b8c2659029395bdf");
}

#[test]
fn ton_address_is_the_public_key() {
    // RFC 8032 test vector 1: secret seed and its ed25519 public key.
    let seed = hex::decode("9d61b19deffd5a60ba844af492ec2cc44449c5697b326919703bac031cae7f60").unwrap();
    let k = derive_keys(ChainId::Ton, NetworkKind::Mainnet, &seed).unwrap();
    assert_eq!(k.address, "TONd75a980182b10ab7d54bfed3c964073a0ee172f3daa62325af021a68f707511a");
    assert!(!k.address.contains(&hex::encode(&seed[0..4])));
}

#[test]
fn sol_address_is_deterministic() {
    let a = derive_keys(ChainId::Sol, NetworkKind::Mainnet, &vec![7u8; 32]).unwrap();
    let b = derive_keys(ChainId::Sol, NetworkKind::Mainnet, &vec![7u8; 32]).unwrap();
    let c = derive_keys(ChainId::Sol, NetworkKind::Mainnet, &vec![8u8; 32]).unwrap();
    assert_eq!(a.address, b.address);
    assert_ne!(a.address, c.address);
    assert!(a.address.len() >= 32);
}

#[test]
fn xmr_address_from_two_secrets() {
    let mut e = vec![0u8; 64];
    e[0] = 5;
    e[32] = 9;
    let k = derive_keys(ChainId::Xmr, NetworkKind::Mainnet, &e).unwrap();
    assert!(k.address.starts_with('4'));
    assert_eq!(k.address.len(), 95);
    assert_eq!(k.secret, e[0..32].to_vec());
    assert_eq!(k.view_secret, e[32..64].to_vec());
}

#[test]
fn same_bytes_same_address_on_every_chain() {
    let chains = [ChainId::Btc, ChainId::Ltc, ChainId::Eth, ChainId::Sol, ChainId::Ton, ChainId::Xmr];
    for c in chains {
        let e = if c == ChainId::Xmr { vec![3u8; 64] } else { vec![3u8; 32] };
        let a = derive_keys(c, NetworkKind::Mainnet, &e).unwrap();
        let b = derive_keys(c, NetworkKind::Mainnet, &e).unwrap();
        assert_eq!(a.address, b.address);
    }
}

#[test]
fn zero_secret_is_an_encoding_error() {
    let r = derive_keys(ChainId::Btc, NetworkKind::Mainnet, &vec![0u8; 32]);
    assert_eq!(r.err(), Some(KeyError::Encoding));
}

#[test]
fn secret_at_curve_order_is_an_encoding_error() {
    let n = hex::decode("fffffffffffffffffffffffffffffffebaaedce6af48a03bbfd25e8cd0364141").unwrap();
    assert_eq!(derive_keys(ChainId::Eth, NetworkKind::Mainnet, &n).err(), Some(KeyError::Encoding));
    let mut below = n.clone();
    below[31] = 0x40;
    assert!(derive_keys(ChainId::Eth, NetworkKind::Mainnet, &below).is_ok());
}

#[test]
fn non_canonical_monero_scalar_is_an_encoding_error() {
    let e = vec![0xffu8; 64];
    assert_eq!(derive_keys(ChainId::Xmr, NetworkKind::Mainnet, &e).err(), Some(KeyError::Encoding));
}

#[test]
fn wrong_entropy_length_is_an_encoding_error() {
    assert_eq!(derive_keys(ChainId::Ton, NetworkKind::Mainnet, &vec![1u8; 31]).err(), Some(KeyError::Encoding));
    assert_eq!(derive_keys(ChainId::Xmr, NetworkKind::Mainnet, &vec![1u8; 32]).err(), Some(KeyError::Encoding));
}

#[test]
fn generate_draws_valid_keys() {
    for c in [ChainId::Btc, ChainId::Eth, ChainId::Xmr] {
        let k = generate(c, NetworkKind::Mainnet).unwrap();
        let mut e = k.secret.clone();
        e.extend_from_slice(&k.view_secret);
        let again = derive_keys(c, NetworkKind::Mainnet, &e).unwrap();
        assert_eq!(again.address, k.address);
    }
}

#[test]
fn failed_draw_is_an_entropy_error() {
    assert_eq!(keys_from_draw(ChainId::Btc, NetworkKind::Mainnet, None).err(), Some(KeyError::Entropy));
}

#[test]
fn invalid_draw_is_retried_with_the_next() {
    let k = first_valid(ChainId::Btc, NetworkKind::Mainnet, &vec![vec![0u8; 32], key_one()]).unwrap();
    assert_eq!(k.secret, key_one());
    assert_eq!(first_valid(ChainId::Btc, NetworkKind::Mainnet, &vec![vec![0u8; 32]]).err(), Some(KeyError::Encoding));
    assert_eq!(first_valid(ChainId::Btc, NetworkKind::Mainnet, &vec![]).err(), Some(KeyError::Encoding));
}

#[test]
fn monero_draws_are_masked_into_range() {
    let k = keys_from_draw(ChainId::Xmr, NetworkKind::Mainnet, Some(vec![0xffu8; 64])).unwrap();
    assert_eq!(k.secret[31], 0x0f);
    assert_eq!(k.view_secret[31], 0x0f);
    assert_eq!(k.secret[0], 0xff);
    let b = keys_from_draw(ChainId::Btc, NetworkKind::Mainnet, Some(key_one())).unwrap();
    assert_eq!(b.secret, key_one());
}
