use vstd::prelude::*;
use crate::chain::{chain_index, ChainId, NetworkKind, CHAIN_COUNT};
use crate::keys::{copy_range, derive_keys, generate, secret_ok, KeyError, KeyMaterial};

verus! {

/// Why a wallet could not be built. No wallet exists after either.
#[derive(Clone, Copy, Debug, PartialEq, Eq, Structural)]
pub enum RegistryError {
    /// The derivation for this chain failed.
    PartialGeneration(ChainId, KeyError),
    /// The chain was asked for twice.
    DuplicateChain(ChainId),
}

/// No chain occurs twice.
pub open spec fn distinct_chains(s: Seq<ChainId>) -> bool {
    forall|i: int, j: int| 0 <= i < j < s.len() ==> s[i] != s[j]
}

/// Key material for a set of chains, one entry per chain, fixed once built.
pub struct Wallet {
    network: NetworkKind,
    entries: Vec<KeyMaterial>,
}

impl Wallet {
    /// The entries, in the order the chains were given.
    pub closed spec fn entries_spec(&self) -> Seq<KeyMaterial> {
        self.entries@
    }

    /// The network the addresses are encoded for.
    pub closed spec fn network_spec(&self) -> NetworkKind {
        self.network
    }

    /// The chains the wallet holds, in order.
    pub open spec fn chains(&self) -> Seq<ChainId> {
        self.entries_spec().map_values(|k: KeyMaterial| k.chain)
    }

    /// One entry per chain, each derived from its own secret bytes.
    pub open spec fn wf(&self) -> bool {
        &&& distinct_chains(self.chains())
        &&& forall|i: int|
            0 <= i < self.entries_spec().len() ==> (#[trigger] self.entries_spec()[i]).derived_from(
                self.entries_spec()[i].chain,
                self.network_spec(),
                self.entries_spec()[i].entropy(),
            )
    }

    /// The entry of a chain, where the wallet holds it.
    pub open spec fn entry_of(&self, c: ChainId) -> Option<KeyMaterial> {
        if exists|i: int| 0 <= i < self.entries_spec().len() && self.entries_spec()[i].chain == c {
            let i = choose|i: int|
                0 <= i < self.entries_spec().len() && self.entries_spec()[i].chain == c;
            Some(self.entries_spec()[i])
        } else {
            None
        }
    }

    /// The network the addresses are encoded for.
    pub fn network(&self) -> (r: NetworkKind)
        ensures
            r == self.network_spec(),
    {
        self.network
    }

    /// Number of chains held.
    pub fn len(&self) -> (r: usize)
        ensures
            r == self.entries_spec().len(),
    {
        self.entries.len()
    }

    fn find(&self, c: ChainId) -> (r: Option<usize>)
        requires
            self.wf(),
        ensures
            r matches Some(i) ==> i < self.entries_spec().len() && self.entries_spec()[i as int].chain
                == c && self.entry_of(c) == Some(self.entries_spec()[i as int]),
            r is None ==> self.entry_of(c) is None,
    {
        let mut i: usize = 0;
        while i < self.entries.len()
            invariant
                self.wf(),
                i <= self.entries_spec().len(),
                self.entries_spec() == self.entries@,
                forall|j: int| 0 <= j < i ==> self.entries_spec()[j].chain != c,
            decreases self.entries@.len() - i,
        {
            if self.entries[i].chain == c {
                proof {
                    let k = choose|k: int|
                        0 <= k < self.entries_spec().len() && self.entries_spec()[k].chain == c;
                    if k != i {
                        assert(self.chains()[k] == c);
                        assert(self.chains()[i as int] == c);
                        assert(distinct_chains(self.chains()));
                        assert(self.chains().len() == self.entries_spec().len());
                        if k < i {
                            assert(self.chains()[k] != self.chains()[i as int]);
                        } else {
                            assert(self.chains()[i as int] != self.chains()[k]);
                        }
                    }
                }
                return Some(i);
            }
            i = i + 1;
        }
        None
    }

    /// Whether the wallet holds the chain.
    pub fn has(&self, c: ChainId) -> (r: bool)
        requires
            self.wf(),
        ensures
            r == self.entry_of(c) is Some,
            r == self.chains().contains(c),
    {
        let r = self.find(c);
        proof {
            if r is Some {
                assert(self.chains()[r->0 as int] == c);
            } else if self.chains().contains(c) {
                let j = choose|j: int| 0 <= j < self.chains().len() && self.chains()[j] == c;
                assert(self.entries_spec()[j].chain == c);
            }
        }
        r.is_some()
    }

    /// The receiving address of a chain; `None` exactly where the wallet does not hold it.
    pub fn address_of(&self, c: ChainId) -> (r: Option<String>)
        requires
            self.wf(),
        ensures
            r is Some <==> self.entry_of(c) is Some,
            r matches Some(a) ==> a@ == self.entry_of(c)->0.address@,
    {
        match self.find(c) {
            Some(i) => Some(self.entries[i].address.clone()),
            None => None,
        }
    }

    /// The signing secret of a chain (the spend secret on Monero), for the
    /// outbound-send path only.
    pub fn secret_of(&self, c: ChainId) -> (r: Option<Vec<u8>>)
        requires
            self.wf(),
        ensures
            r is Some <==> self.entry_of(c) is Some,
            r matches Some(s) ==> s@ == self.entry_of(c)->0.secret@,
    {
        match self.find(c) {
            Some(i) => {
                let s = &self.entries[i].secret;
                Some(copy_range(s, 0, s.len()))
            },
            None => None,
        }
    }
}

/// The first chain that occurs twice, if any.
pub fn first_duplicate(chains: &Vec<ChainId>) -> (r: Option<ChainId>)
    ensures
        r is None <==> distinct_chains(chains@),
        r matches Some(c) ==> chains@.contains(c),
{
    let mut seen: Vec<bool> = vec![false, false, false, false, false, false];
    let mut i: usize = 0;
    while i < chains.len()
        invariant
            i <= chains@.len(),
            seen@.len() == CHAIN_COUNT,
            distinct_chains(chains@.subrange(0, i as int)),
            forall|k: int|
                0 <= k < CHAIN_COUNT ==> (#[trigger] seen@[k] <==> exists|j: int|
                    0 <= j < i && chain_index(chains@[j]) == k),
        decreases chains@.len() - i,
    {
        let c = chains[i];
        let k = c.index();
        if seen[k] {
            proof {
                assert(chains@[i as int] == c);
            }
            return Some(c);
        }
        proof {
            let next = chains@.subrange(0, i + 1);
            let prev = chains@.subrange(0, i as int);
            assert forall|a: int, b: int| 0 <= a < b < i + 1 implies #[trigger] next[a]
                != #[trigger] next[b] by {
                if b == i {
                    assert(chain_index(chains@[a]) != k);
                } else {
                    assert(prev[a] != prev[b]);
                }
            }
        }
        seen.set(k, true);
        i = i + 1;
    }
    assert(chains@.subrange(0, chains@.len() as int) =~= chains@);
    None
}

/// Builds a wallet from given entropy, one buffer per chain. All or nothing:
/// it succeeds exactly when the chains are distinct and every buffer makes a
/// valid secret for its chain, and no wallet exists otherwise.
pub fn from_entropy(chains: &Vec<ChainId>, network: NetworkKind, entropy: &Vec<Vec<u8>>) -> (r:
    Result<Wallet, RegistryError>)
    requires
        chains@.len() == entropy@.len(),
    ensures
        r is Ok <==> distinct_chains(chains@) && forall|i: int|
            0 <= i < chains@.len() ==> secret_ok(chains@[i], #[trigger] entropy@[i]@),
        r matches Ok(w) ==> {
            &&& w.wf()
            &&& w.network_spec() == network
            &&& w.chains() == chains@
            &&& forall|i: int|
                0 <= i < chains@.len() ==> (#[trigger] w.entries_spec()[i]).derived_from(
                    chains@[i],
                    network,
                    entropy@[i]@,
                )
        },
        r matches Err(RegistryError::DuplicateChain(c)) ==> !distinct_chains(chains@)
            && chains@.contains(c),
        r matches Err(RegistryError::PartialGeneration(c, e)) ==> e == KeyError::Encoding
            && exists|i: int|
            0 <= i < chains@.len() && chains@[i] == c && !secret_ok(c, #[trigger] entropy@[i]@),
{
    if let Some(c) = first_duplicate(chains) {
        return Err(RegistryError::DuplicateChain(c));
    }
    let mut entries: Vec<KeyMaterial> = Vec::new();
    let mut i: usize = 0;
    while i < chains.len()
        invariant
            i <= chains@.len() == entropy@.len(),
            distinct_chains(chains@),
            entries@.len() == i,
            forall|j: int| 0 <= j < i ==> secret_ok(chains@[j], #[trigger] entropy@[j]@),
            forall|j: int|
                0 <= j < i ==> (#[trigger] entries@[j]).derived_from(
                    chains@[j],
                    network,
                    entropy@[j]@,
                ),
        decreases chains@.len() - i,
    {
        match derive_keys(chains[i], network, &entropy[i]) {
            Ok(k) => {
                entries.push(k);
            },
            Err(e) => {
                return Err(RegistryError::PartialGeneration(chains[i], e));
            },
        }
        i = i + 1;
    }
    let w = Wallet { network, entries };
    proof {
        assert(w.chains() =~= chains@);
        assert forall|j: int| 0 <= j < w.entries_spec().len() implies (#[trigger] w.entries_spec()[j]).derived_from(
            w.entries_spec()[j].chain,
            w.network_spec(),
            w.entries_spec()[j].entropy(),
        ) by {
            assert(w.entries_spec()[j].entropy() =~= entropy@[j]@);
        }
    }
    Ok(w)
}

/// Builds a wallet from fresh system entropy, one derivation per chain.
/// All or nothing: any failed derivation leaves no wallet.
pub fn generate_all(chains: &Vec<ChainId>, network: NetworkKind) -> (r: Result<
    Wallet,
    RegistryError,
>)
    ensures
        r matches Ok(w) ==> w.wf() && w.network_spec() == network && w.chains() == chains@,
        r matches Err(RegistryError::DuplicateChain(_)) <==> !distinct_chains(chains@),
        r matches Err(RegistryError::PartialGeneration(c, _)) ==> chains@.contains(c),
{
    if let Some(c) = first_duplicate(chains) {
        return Err(RegistryError::DuplicateChain(c));
    }
    let mut entries: Vec<KeyMaterial> = Vec::new();
    let mut i: usize = 0;
    while i < chains.len()
        invariant
            i <= chains@.len(),
            distinct_chains(chains@),
            entries@.len() == i,
            forall|j: int|
                0 <= j < i ==> (#[trigger] entries@[j]).derived_from(
                    chains@[j],
                    network,
                    entries@[j].entropy(),
                ),
        decreases chains@.len() - i,
    {
        match generate(chains[i], network) {
            Ok(k) => {
                entries.push(k);
            },
            Err(e) => {
                assert(chains@[i as int] == chains[i as int]);
                return Err(RegistryError::PartialGeneration(chains[i], e));
            },
        }
        i = i + 1;
    }
    let w = Wallet { network, entries };
    proof {
        assert(w.chains() =~= chains@);
    }
    Ok(w)
}

} // verus!
