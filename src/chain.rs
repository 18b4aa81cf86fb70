use vstd::prelude::*;

verus! {

/// One of the supported blockchain networks.
#[derive(Clone, Copy, Debug, PartialEq, Eq, Structural, Hash)]
pub enum ChainId {
    Btc,
    Ltc,
    Eth,
    Sol,
    Ton,
    Xmr,
}

/// The network class that addresses are encoded for.
#[derive(Clone, Copy, Debug, PartialEq, Eq, Structural, Hash)]
pub enum NetworkKind {
    Mainnet,
    Testnet,
}

/// Number of supported chains.
pub const CHAIN_COUNT: usize = 6;

/// The position of a chain in per-chain tables.
pub open spec fn chain_index(c: ChainId) -> int {
    match c {
        ChainId::Btc => 0,
        ChainId::Ltc => 1,
        ChainId::Eth => 2,
        ChainId::Sol => 3,
        ChainId::Ton => 4,
        ChainId::Xmr => 5,
    }
}

/// The ticker symbol of a chain's currency.
pub open spec fn ticker_of(c: ChainId) -> Seq<char> {
    match c {
        ChainId::Btc => seq!['B', 'T', 'C'],
        ChainId::Ltc => seq!['L', 'T', 'C'],
        ChainId::Eth => seq!['E', 'T', 'H'],
        ChainId::Sol => seq!['S', 'O', 'L'],
        ChainId::Ton => seq!['T', 'O', 'N'],
        ChainId::Xmr => seq!['X', 'M', 'R'],
    }
}

impl ChainId {
    /// The chain's slot in per-chain tables.
    pub fn index(&self) -> (r: usize)
        ensures
            r as int == chain_index(*self),
            r < CHAIN_COUNT,
    {
        match self {
            ChainId::Btc => 0,
            ChainId::Ltc => 1,
            ChainId::Eth => 2,
            ChainId::Sol => 3,
            ChainId::Ton => 4,
            ChainId::Xmr => 5,
        }
    }

    /// The ticker symbol used by the exchange protocol.
    pub fn ticker(&self) -> (r: &'static str)
        ensures
            r@ == ticker_of(*self),
    {
        proof {
            reveal_strlit("BTC");
            reveal_strlit("LTC");
            reveal_strlit("ETH");
            reveal_strlit("SOL");
            reveal_strlit("TON");
            reveal_strlit("XMR");
        }
        match self {
            ChainId::Btc => "BTC",
            ChainId::Ltc => "LTC",
            ChainId::Eth => "ETH",
            ChainId::Sol => "SOL",
            ChainId::Ton => "TON",
            ChainId::Xmr => "XMR",
        }
    }
}

} // verus!
