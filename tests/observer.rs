use chainswap::chain::ChainId;
use chainswap::observer::{contains_chain, Observer, Signal};

fn sig(chain: ChainId, position: u64, amount: u64) -> Signal {
    Signal { chain, position, amount, observed_at: 100 + position }
}

#[test]
fn consecutive_polls_do_not_rereport() {
    let watched = vec![ChainId::Btc, ChainId::Xmr];
    let mut o = Observer::new();
    let first = o.poll(&watched, &vec![sig(ChainId::Btc, 5, 100_000_000)]);
    assert_eq!(first.len(), 1);
    assert_eq!(first[0].position, 5);
    let second = o.poll(&watched, &vec![sig(ChainId::Btc, 5, 100_000_000), sig(ChainId::Btc, 6, 7)]);
    assert_eq!(second.len(), 1);
    assert_eq!(second[0].position, 6);
    assert_eq!(o.mark_of(ChainId::Btc), Some(6));
}

#[test]
fn each_transfer_is_reported_once_in_order() {
    let watched = vec![ChainId::Btc];
    let mut o = Observer::new();
    let r = o.poll(
        &watched,
        &vec![sig(ChainId::Eth, 1, 1), sig(ChainId::Btc, 9, 2), sig(ChainId::Btc, 9, 2), sig(ChainId::Btc, 10, 3)],
    );
    assert_eq!(r.len(), 2);
    assert_eq!((r[0].position, r[0].amount), (9, 2));
    assert_eq!((r[1].position, r[1].amount), (10, 3));
    assert_eq!(o.mark_of(ChainId::Btc), Some(10));
    assert_eq!(o.mark_of(ChainId::Eth), None);
    assert!(o.poll(&watched, &vec![sig(ChainId::Btc, 9, 2)]).is_empty());
    assert!(contains_chain(&watched, ChainId::Btc));
    assert!(!contains_chain(&watched, ChainId::Ton));
}

#[test]
fn empty_poll_reports_nothing() {
    let mut o = Observer::new();
    assert!(o.poll(&vec![ChainId::Btc], &vec![]).is_empty());
}
