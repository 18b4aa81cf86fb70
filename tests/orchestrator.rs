use chainswap::chain::{ChainId, NetworkKind};
use chainswap::exchange::{quote_from_fields, swap_from_field, ExchangeError, Quote, SwapOrder};
use chainswap::observer::{IncomingEvent, Observer, Signal};
use chainswap::orchestrator::{Action, Orchestrator, Outcome, Stage};
use chainswap::registry::from_entropy;

fn ev(chain: ChainId, position: u64, amount: u64) -> IncomingEvent {
    IncomingEvent { chain, position, amount, observed_at: 1_700_000_000 }
}

fn quote(addr: &str, amount: u64) -> Quote {
    Quote { from: ChainId::Btc, to: ChainId::Xmr, from_amount: amount, estimated_amount: 1, deposit_address: addr.to_string() }
}

fn order(id: &str) -> SwapOrder {
    SwapOrder { swap_id: id.to_string() }
}

#[test]
fn btc_to_xmr_end_to_end() {
    let mut key = vec![0u8; 32];
    key[31] = 1;
    let mut x = vec![0u8; 64];
    x[0] = 1;
    x[32] = 2;
    let w = from_entropy(&vec![ChainId::Btc, ChainId::Xmr], NetworkKind::Mainnet, &vec![key, x]).unwrap();
    let mut obs = Observer::new();
    let events = obs.poll(
        &vec![ChainId::Btc, ChainId::Xmr],
        &vec![Signal { chain: ChainId::Btc, position: 1, amount: 1_000_000_000, observed_at: 10 }],
    );
    let mut o = Orchestrator::new(ChainId::Xmr, w.address_of(ChainId::Xmr).unwrap());
    o.begin_cycle();
    o.accept_events(&events);
    let mut sends = Vec::new();
    let mut logged = Vec::new();
    while let Some(a) = o.next_action() {
        match a {
            Action::Estimate { id, from, to, amount } => {
                assert_eq!((from, to, amount), (ChainId::Btc, ChainId::Xmr, 1_000_000_000));
                let q = quote_from_fields(from, to, amount, Some("0.001".into()), Some("0.095".into()), Some("Dxyz".into()));
                assert!(o.on_estimate(id, q).is_none());
            }
            Action::CreateSwap { id, destination, .. } => {
                assert_eq!(Some(destination), w.address_of(ChainId::Xmr));
                match o.on_swap(id, swap_from_field(Some("swap123".into()))) {
                    Some(Action::Report { outcome: Outcome::Swapped(sid), .. }) => logged.push(sid),
                    _ => panic!("swap not reported"),
                }
            }
            Action::Send { id, chain, amount, address } => {
                sends.push((chain, amount, address));
                assert!(matches!(o.on_send(id, true), Some(Action::Report { outcome: Outcome::Sent, .. })));
            }
            Action::Report { .. } => panic!("reports come from answers"),
        }
    }
    assert_eq!(sends, vec![(ChainId::Btc, 1_000_000_000, "Dxyz".to_string())]);
    assert_eq!(logged, vec!["swap123".to_string()]);
    assert_eq!(o.slot(0).stage, Stage::Done);
}

#[test]
fn malformed_estimate_drops_event_and_loop_goes_on() {
    let mut o = Orchestrator::new(ChainId::Xmr, "4dest".to_string());
    o.accept_events(&vec![ev(ChainId::Btc, 1, 1_000_000_000), ev(ChainId::Eth, 1, 10_000_000_000)]);
    let a = o.next_action();
    assert!(matches!(a, Some(Action::Estimate { id: 0, .. })));
    let q = quote_from_fields(ChainId::Btc, ChainId::Xmr, 1_000_000_000, Some("0.001".into()), None, Some("Dxyz".into()));
    let r = o.on_estimate(0, q);
    assert!(matches!(r, Some(Action::Report { id: 0, outcome: Outcome::Dropped(ExchangeError::MalformedResponse) })));
    assert_eq!(o.slot(0).stage, Stage::Dropped);
    assert!(matches!(o.next_action(), Some(Action::Estimate { id: 1, from: ChainId::Eth, .. })));
    assert!(o.next_action().is_none());
}

#[test]
fn unavailable_estimate_is_retried_next_cycle() {
    let mut o = Orchestrator::new(ChainId::Xmr, "4dest".to_string());
    o.accept_events(&vec![ev(ChainId::Btc, 1, 5)]);
    assert!(matches!(o.next_action(), Some(Action::Estimate { id: 0, .. })));
    assert!(o.on_estimate(0, Err(ExchangeError::ServiceUnavailable)).is_none());
    assert!(o.next_action().is_none());
    o.begin_cycle();
    assert!(matches!(o.next_action(), Some(Action::Estimate { id: 0, .. })));
}

#[test]
fn invalid_pair_is_dropped_once() {
    let mut o = Orchestrator::new(ChainId::Xmr, "4dest".to_string());
    o.accept_events(&vec![ev(ChainId::Ton, 3, 5)]);
    assert!(o.next_action().is_some());
    let r = o.on_estimate(0, Err(ExchangeError::InvalidPair));
    assert!(matches!(r, Some(Action::Report { id: 0, outcome: Outcome::Dropped(ExchangeError::InvalidPair) })));
    assert!(o.on_estimate(0, Err(ExchangeError::InvalidPair)).is_none());
    o.begin_cycle();
    o.accept_events(&vec![ev(ChainId::Ton, 3, 5)]);
    assert_eq!(o.len(), 1);
    assert!(o.next_action().is_none());
}

#[test]
fn create_swap_is_issued_once_across_cycles() {
    let mut o = Orchestrator::new(ChainId::Xmr, "4dest".to_string());
    o.accept_events(&vec![ev(ChainId::Btc, 1, 5)]);
    o.next_action();
    o.on_estimate(0, Ok(quote("D1", 5)));
    assert!(matches!(o.next_action(), Some(Action::CreateSwap { id: 0, .. })));
    for _ in 0..3 {
        o.begin_cycle();
        o.accept_events(&vec![ev(ChainId::Btc, 1, 5)]);
        assert!(o.next_action().is_none());
    }
    assert!(o.on_swap(0, Ok(order("s1"))).is_some());
    assert!(matches!(o.next_action(), Some(Action::Send { id: 0, .. })));
    assert!(o.on_swap(0, Ok(order("s2"))).is_none());
}

#[test]
fn target_currency_events_are_not_converted() {
    let mut o = Orchestrator::new(ChainId::Xmr, "4dest".to_string());
    o.accept_events(&vec![ev(ChainId::Xmr, 1, 5)]);
    assert_eq!(o.len(), 0);
    assert!(o.next_action().is_none());
}

#[test]
fn failed_send_is_final() {
    let mut o = Orchestrator::new(ChainId::Xmr, "4dest".to_string());
    o.accept_events(&vec![ev(ChainId::Sol, 1, 5)]);
    o.next_action();
    o.on_estimate(0, Ok(quote("D1", 5)));
    o.next_action();
    o.on_swap(0, Ok(order("s1")));
    assert!(matches!(o.next_action(), Some(Action::Send { address, .. }) if address == "D1"));
    assert!(matches!(o.on_send(0, false), Some(Action::Report { outcome: Outcome::SendFailed, .. })));
    o.begin_cycle();
    assert!(o.next_action().is_none());
    assert_eq!(o.slot(0).stage, Stage::SendFailed);
}

#[test]
fn rejected_order_is_dropped() {
    let mut o = Orchestrator::new(ChainId::Xmr, "4dest".to_string());
    o.accept_events(&vec![ev(ChainId::Ltc, 1, 5)]);
    o.next_action();
    o.on_estimate(0, Ok(quote("D1", 5)));
    o.next_action();
    let r = o.on_swap(0, Err(ExchangeError::RejectedOrder));
    assert!(matches!(r, Some(Action::Report { outcome: Outcome::Dropped(ExchangeError::RejectedOrder), .. })));
    assert!(o.next_action().is_none());
}

#[test]
fn two_transfers_on_one_chain_are_both_taken_in() {
    let mut o = Orchestrator::new(ChainId::Xmr, "4dest".to_string());
    o.accept_events(&vec![ev(ChainId::Btc, 4, 5), ev(ChainId::Btc, 5, 5), ev(ChainId::Btc, 4, 5)]);
    assert_eq!(o.len(), 2);
    assert!(matches!(o.next_action(), Some(Action::Estimate { id: 0, .. })));
    assert!(matches!(o.next_action(), Some(Action::Estimate { id: 1, .. })));
}
