use chainswap::chain::{ChainId, NetworkKind};
use chainswap::keys::KeyError;
use chainswap::registry::{first_duplicate, from_entropy, generate_all, RegistryError};

fn key_one() -> Vec<u8> {
    let mut v = vec![0u8; 32];
    v[31] = 1;
    v
}

#[test]
fn wallet_for_btc_and_xmr() {
    let chains = vec![ChainId::Btc, ChainId::Xmr];
    let mut x = vec![0u8; 64];
    x[0] = 1;
    x[32] = 2;
    let w = from_entropy(&chains, NetworkKind::Mainnet, &vec![key_one(), x]).unwrap();
    assert_eq!(w.len(), 2);
    assert_eq!(w.network(), NetworkKind::Mainnet);
    assert_eq!(w.address_of(ChainId::Btc).unwrap(), "1BgGZ9tcN4rm9KBzDn7KprQz87SZ26SAMH");
    assert!(w.address_of(ChainId::Xmr).is_some());
    assert!(w.address_of(ChainId::Eth).is_none());
    assert_eq!(w.secret_of(ChainId::Btc).unwrap(), key_one());
    assert!(w.has(ChainId::Xmr));
    assert!(!w.has(ChainId::Sol));
}

#[test]
fn one_failed_chain_leaves_no_wallet() {
    let chains = vec![ChainId::Btc, ChainId::Eth, ChainId::Ton];
    let r = from_entropy(&chains, NetworkKind::Mainnet, &vec![key_one(), vec![0u8; 32], vec![1u8; 32]]);
    assert!(matches!(r, Err(RegistryError::PartialGeneration(ChainId::Eth, KeyError::Encoding))));
}

#[test]
fn duplicate_chain_is_refused() {
    let chains = vec![ChainId::Btc, ChainId::Btc];
    let r = from_entropy(&chains, NetworkKind::Mainnet, &vec![key_one(), key_one()]);
    assert!(matches!(r, Err(RegistryError::DuplicateChain(ChainId::Btc))));
    assert_eq!(first_duplicate(&vec![ChainId::Sol, ChainId::Eth, ChainId::Sol]), Some(ChainId::Sol));
    assert_eq!(first_duplicate(&vec![ChainId::Sol, ChainId::Eth]), None);
}

#[test]
fn generate_all_six_chains() {
    let chains = vec![ChainId::Btc, ChainId::Ltc, ChainId::Eth, ChainId::Sol, ChainId::Ton, ChainId::Xmr];
    let w = generate_all(&chains, NetworkKind::Mainnet).unwrap();
    assert_eq!(w.len(), 6);
    for c in chains {
        assert!(!w.address_of(c).unwrap().is_empty());
    }
}
