use vstd::prelude::*;
use crate::chain::{ChainId, NetworkKind};
use crate::crypto::{
    base58check, ed25519_public, ed25519_public_of, base58check_of, ed_scalar_ok, hex_encode, hex_text, keccak256, keccak_of,
    pubkey_hash_of, random_bytes, secp_pubkey_hash, secp_scalar_ok, secp_secret_ok,
    secp_uncompressed_point, base58, base58_of, uncompressed_point_of, xmr_address,
    xmr_address_of, xmr_scalar_ok, le_value,
};

verus! {

/// Length of one secret, in bytes.
pub const SECRET_LEN: usize = 32;

/// How many fresh draws `generate` makes before it gives up on invalid scalars.
pub const MAX_DRAWS: usize = 8;

/// Why key material could not be produced.
#[derive(Clone, Copy, Debug, PartialEq, Eq, Structural)]
pub enum KeyError {
    /// The system randomness source failed.
    Entropy,
    /// The secret bytes are not a valid scalar for the chain's curve.
    Encoding,
}

/// A chain's secret and its receiving address. `view_secret` is empty but
/// for Monero, which holds a spend and a view secret.
pub struct KeyMaterial {
    pub chain: ChainId,
    pub secret: Vec<u8>,
    pub view_secret: Vec<u8>,
    pub address: String,
}

/// Bytes of entropy a chain's secrets take.
pub open spec fn entropy_len(c: ChainId) -> nat {
    if c == ChainId::Xmr {
        64
    } else {
        32
    }
}

/// Version byte of a pay-to-pubkey-hash address on Bitcoin.
pub open spec fn btc_version(n: NetworkKind) -> u8 {
    match n {
        NetworkKind::Mainnet => 0x00,
        NetworkKind::Testnet => 0x6f,
    }
}

/// Version byte of a pay-to-pubkey-hash address on Litecoin.
pub open spec fn ltc_version(n: NetworkKind) -> u8 {
    match n {
        NetworkKind::Mainnet => 0x30,
        NetworkKind::Testnet => 0x6f,
    }
}

/// Whether entropy bytes make a valid secret for the chain.
pub open spec fn secret_ok(c: ChainId, e: Seq<u8>) -> bool {
    e.len() == entropy_len(c) && match c {
        ChainId::Btc | ChainId::Ltc | ChainId::Eth => secp_scalar_ok(e),
        ChainId::Sol | ChainId::Ton => true,
        ChainId::Xmr => ed_scalar_ok(e.subrange(0, 32)) && ed_scalar_ok(e.subrange(32, 64)),
    }
}

/// The receiving address of a chain for the given secret bytes. A TON
/// address is the hex of the ed25519 public key after a `TON` tag, so that
/// no secret byte is published.
pub open spec fn address_spec(c: ChainId, n: NetworkKind, e: Seq<u8>) -> Seq<char> {
    match c {
        ChainId::Btc => base58check_of(seq![btc_version(n)] + pubkey_hash_of(e)),
        ChainId::Ltc => base58check_of(seq![ltc_version(n)] + pubkey_hash_of(e)),
        ChainId::Eth => seq!['0', 'x'] + hex_text(
            keccak_of(uncompressed_point_of(e).subrange(1, 65)).subrange(12, 32),
        ),
        ChainId::Sol => base58_of(ed25519_public_of(e)),
        ChainId::Ton => seq!['T', 'O', 'N'] + hex_text(ed25519_public_of(e)),
        ChainId::Xmr => xmr_address_of(
            e.subrange(0, 32),
            e.subrange(32, 64),
            n == NetworkKind::Mainnet,
        ),
    }
}

impl KeyMaterial {
    /// The entropy the material was derived from.
    pub open spec fn entropy(&self) -> Seq<u8> {
        self.secret@ + self.view_secret@
    }

    /// The material is what `derive_keys` makes of these inputs.
    pub open spec fn derived_from(&self, c: ChainId, n: NetworkKind, e: Seq<u8>) -> bool {
        &&& self.chain == c
        &&& secret_ok(c, e)
        &&& self.secret@ == e.subrange(0, 32)
        &&& self.view_secret@ == e.subrange(32, e.len() as int)
        &&& self.address@ == address_spec(c, n, e)
    }
}

/// The bytes `v[lo..hi]` in a new vector.
pub fn copy_range(v: &Vec<u8>, lo: usize, hi: usize) -> (r: Vec<u8>)
    requires
        lo <= hi <= v@.len(),
    ensures
        r@ == v@.subrange(lo as int, hi as int),
{
    let mut r: Vec<u8> = Vec::new();
    let mut i: usize = lo;
    while i < hi
        invariant
            lo <= i <= hi <= v@.len(),
            r@ == v@.subrange(lo as int, i as int),
        decreases hi - i,
    {
        r.push(v[i]);
        i = i + 1;
        assert(r@ =~= v@.subrange(lo as int, i as int));
    }
    r
}

/// A version byte followed by a payload.
fn prefixed(version: u8, payload: &Vec<u8>) -> (r: Vec<u8>)
    ensures
        r@ == seq![version] + payload@,
{
    let mut r: Vec<u8> = Vec::new();
    r.push(version);
    let mut i: usize = 0;
    while i < payload.len()
        invariant
            i <= payload@.len(),
            r@ == seq![version] + payload@.subrange(0, i as int),
        decreases payload@.len() - i,
    {
        r.push(payload[i]);
        i = i + 1;
        assert(r@ =~= seq![version] + payload@.subrange(0, i as int));
    }
    assert(payload@.subrange(0, payload@.len() as int) =~= payload@);
    r
}

/// `prefix` followed by the lowercase hex text of `bytes`.
fn prefixed_hex(prefix: &str, bytes: &Vec<u8>) -> (r: String)
    ensures
        r@ == prefix@ + hex_text(bytes@),
{
    let h = hex_encode(bytes.as_slice());
    let p = String::from_str(prefix);
    p.concat(h.as_str())
}

/// The address of a chain for secret bytes that are valid for it.
fn address_for(chain: ChainId, network: NetworkKind, e: &Vec<u8>) -> (r: String)
    requires
        secret_ok(chain, e@),
    ensures
        r@ == address_spec(chain, network, e@),
{
    match chain {
        ChainId::Btc | ChainId::Ltc => {
            let version: u8 = match (chain, network) {
                (ChainId::Btc, NetworkKind::Mainnet) => 0x00,
                (ChainId::Ltc, NetworkKind::Mainnet) => 0x30,
                _ => 0x6f,
            };
            let hash = secp_pubkey_hash(e);
            base58check(&prefixed(version, &hash))
        },
        ChainId::Eth => {
            let point = secp_uncompressed_point(e);
            let body = copy_range(&point, 1, 65);
            let digest = keccak256(body.as_slice());
            let tail = copy_range(&digest, 12, 32);
            proof {
                reveal_strlit("0x");
            }
            prefixed_hex("0x", &tail)
        },
        ChainId::Sol => base58(&ed25519_public(e)),
        ChainId::Ton => {
            let public = ed25519_public(e);
            proof {
                reveal_strlit("TON");
            }
            prefixed_hex("TON", &public)
        },
        ChainId::Xmr => {
            let spend = copy_range(e, 0, 32);
            let view = copy_range(e, 32, 64);
            xmr_address(spend.as_slice(), view.as_slice(), network == NetworkKind::Mainnet)
        },
    }
}

/// Whether entropy bytes make a valid secret for the chain.
pub fn check_secret(chain: ChainId, e: &Vec<u8>) -> (r: bool)
    ensures
        r == secret_ok(chain, e@),
{
    let want: usize = if chain == ChainId::Xmr { 64 } else { 32 };
    if e.len() != want {
        return false;
    }
    match chain {
        ChainId::Btc | ChainId::Ltc | ChainId::Eth => secp_secret_ok(e),
        ChainId::Sol | ChainId::Ton => true,
        ChainId::Xmr => {
            let spend = copy_range(e, 0, 32);
            let view = copy_range(e, 32, 64);
            xmr_scalar_ok(spend.as_slice()) && xmr_scalar_ok(view.as_slice())
        },
    }
}

/// Derives a chain's key material from given entropy: 32 bytes, or 64 for
/// Monero (spend secret then view secret). The address depends on the bytes
/// and the network alone.
pub fn derive_keys(chain: ChainId, network: NetworkKind, entropy: &Vec<u8>) -> (r: Result<
    KeyMaterial,
    KeyError,
>)
    ensures
        r matches Ok(k) ==> k.derived_from(chain, network, entropy@),
        r matches Err(e) ==> e == KeyError::Encoding,
        r is Ok <==> secret_ok(chain, entropy@),
{
    if !check_secret(chain, entropy) {
        return Err(KeyError::Encoding);
    }
    let address = address_for(chain, network, entropy);
    let secret = copy_range(entropy, 0, SECRET_LEN);
    let view_secret = copy_range(entropy, SECRET_LEN, entropy.len());
    Ok(KeyMaterial { chain, secret, view_secret, address })
}

/// What `generate` makes of a draw: each Monero secret of a 64-byte draw
/// has the top four bits of its last byte cleared, which puts it below
/// 2^252 and so below the group order; other draws are kept as they are.
pub open spec fn masked(c: ChainId, e: Seq<u8>) -> Seq<u8> {
    if c == ChainId::Xmr && e.len() == 64 {
        e.update(31, e[31] & 0x0f).update(63, e[63] & 0x0f)
    } else {
        e
    }
}

/// 256 to the power `n`.
pub open spec fn pow256(n: nat) -> nat
    decreases n,
{
    if n == 0 {
        1
    } else {
        256 * pow256((n - 1) as nat)
    }
}

proof fn lemma_le_value_top(b: Seq<u8>)
    requires
        b.len() >= 1,
    ensures
        le_value(b) < (b[b.len() - 1] + 1) * pow256((b.len() - 1) as nat),
    decreases b.len(),
{
    if b.len() > 1 {
        let t = b.drop_first();
        lemma_le_value_top(t);
        assert(t[t.len() - 1] == b[b.len() - 1]);
        let top: int = b[b.len() - 1] + 1;
        let p = pow256((t.len() - 1) as nat);
        assert(pow256((b.len() - 1) as nat) == 256 * p);
        assert(le_value(b) == le_value(t) * 256 + b[0]);
        assert(le_value(b) < top * (256 * p)) by (nonlinear_arith)
            requires
                le_value(t) < top * p,
                le_value(b) == le_value(t) * 256 + b[0],
                b[0] < 256,
        ;
    } else {
        assert(b.drop_first().len() == 0);
        assert(le_value(b.drop_first()) == 0);
        assert(le_value(b) == le_value(b.drop_first()) * 256 + b[0] as nat);
        assert(pow256(0) == 1);
    }
}

proof fn lemma_pow256_add(a: nat, b: nat)
    ensures
        pow256(a + b) == pow256(a) * pow256(b),
    decreases a,
{
    if a > 0 {
        lemma_pow256_add((a - 1) as nat, b);
        assert(pow256(a + b) == 256 * pow256((a - 1 + b) as nat));
        assert(pow256(a) * pow256(b) == 256 * (pow256((a - 1) as nat) * pow256(b))) by (nonlinear_arith)
            requires
                pow256(a) == 256 * pow256((a - 1) as nat),
        ;
    } else {
        assert(pow256(a) == 1);
    }
}

proof fn lemma_masked_half_canonical(b: Seq<u8>)
    requires
        b.len() == 32,
        b[31] < 16,
    ensures
        ed_scalar_ok(b),
{
    lemma_le_value_top(b);
    reveal_with_fuel(pow256, 32);
    assert(le_value(b) < 16 * pow256(31)) by (nonlinear_arith)
        requires
            le_value(b) < (b[31] + 1) * pow256(31),
            b[31] < 16,
    ;
    let w: nat = 0x1_0000_0000 * 0x1_0000_0000;
    assert(pow256(8) == w);
    assert(16 * pow256(7) == 0x1000000000000000);
    lemma_pow256_add(8, 8);
    lemma_pow256_add(16, 8);
    lemma_pow256_add(24, 7);
    let a: nat = 0x1000000000000000;
    assert(16 * pow256(31) == a * w * w * w) by (nonlinear_arith)
        requires
            pow256(31) == pow256(24) * pow256(7),
            pow256(24) == pow256(16) * pow256(8),
            pow256(16) == pow256(8) * pow256(8),
            pow256(8) == w,
            16 * pow256(7) == a,
    ;
    let c: nat = 0x14DEF9DEA2F79CD6;
    let d: nat = 0x5812631A5CF5D3ED;
    assert(a * w * w * w <= ((a * w + 0) * w + c) * w + d) by (nonlinear_arith);
    assert(crate::crypto::from_words(a, 0, c, d) == ((a * w + 0) * w + c) * w + d);
}

proof fn lemma_masked_xmr_ok(e: Seq<u8>)
    requires
        e.len() == 64,
    ensures
        secret_ok(ChainId::Xmr, masked(ChainId::Xmr, e)),
{
    let m = masked(ChainId::Xmr, e);
    let x: u8 = e[31];
    let y: u8 = e[63];
    assert(x & 0x0f < 16) by (bit_vector);
    assert(y & 0x0f < 16) by (bit_vector);
    assert(m.subrange(0, 32)[31] == x & 0x0f);
    assert(m.subrange(32, 64)[31] == y & 0x0f);
    lemma_masked_half_canonical(m.subrange(0, 32));
    lemma_masked_half_canonical(m.subrange(32, 64));
}

/// A draw with the Monero mask applied.
fn mask_draw(chain: ChainId, e: &Vec<u8>) -> (r: Vec<u8>)
    ensures
        r@ == masked(chain, e@),
{
    let mut m = copy_range(e, 0, e.len());
    assert(m@ =~= e@);
    if chain == ChainId::Xmr && m.len() == 64 {
        let hi = m[31] & 0x0f;
        m.set(31, hi);
        let hi = m[63] & 0x0f;
        m.set(63, hi);
    }
    m
}

/// Key material from one draw of the entropy source: `None` (the source
/// failed) is an entropy error; a draw is masked, then derived.
pub fn keys_from_draw(chain: ChainId, network: NetworkKind, draw: Option<Vec<u8>>) -> (r: Result<
    KeyMaterial,
    KeyError,
>)
    ensures
        draw is None ==> r == Err::<KeyMaterial, KeyError>(KeyError::Entropy),
        draw matches Some(e) ==> (r is Ok <==> secret_ok(chain, masked(chain, e@))),
        draw matches Some(e) ==> (r matches Err(k) ==> k == KeyError::Encoding),
        draw matches Some(e) ==> (r is Ok ==> r->Ok_0.derived_from(
            chain,
            network,
            masked(chain, e@),
        )),
        draw matches Some(e) ==> (chain == ChainId::Xmr && e@.len() == 64 ==> r is Ok),
{
    match draw {
        None => Err(KeyError::Entropy),
        Some(e) => {
            let m = mask_draw(chain, &e);
            proof {
                if chain == ChainId::Xmr && e@.len() == 64 {
                    lemma_masked_xmr_ok(e@);
                }
            }
            derive_keys(chain, network, &m)
        },
    }
}

/// The retry rule: key material from the first of `draws` that gives a
/// valid secret once masked; an encoding error when none does.
pub fn first_valid(chain: ChainId, network: NetworkKind, draws: &Vec<Vec<u8>>) -> (r: Result<
    KeyMaterial,
    KeyError,
>)
    ensures
        r is Ok <==> exists|i: int|
            0 <= i < draws@.len() && secret_ok(chain, masked(chain, #[trigger] draws@[i]@)),
        r matches Err(e) ==> e == KeyError::Encoding,
        r matches Ok(k) ==> exists|i: int|
            0 <= i < draws@.len() && k.derived_from(chain, network, masked(chain, #[trigger] draws@[i]@))
                && forall|j: int| 0 <= j < i ==> !secret_ok(chain, masked(chain, #[trigger] draws@[j]@)),
{
    let mut i: usize = 0;
    while i < draws.len()
        invariant
            i <= draws@.len(),
            forall|j: int| 0 <= j < i ==> !secret_ok(chain, masked(chain, #[trigger] draws@[j]@)),
        decreases draws@.len() - i,
    {
        let m = mask_draw(chain, &draws[i]);
        match derive_keys(chain, network, &m) {
            Ok(k) => {
                return Ok(k);
            },
            Err(_) => {},
        }
        i = i + 1;
    }
    Err(KeyError::Encoding)
}

/// Draws fresh entropy from the system source until a draw gives a valid
/// secret once masked, at most `MAX_DRAWS` times, then applies `first_valid`
/// to the draws made. A failed source is an entropy error. Monero secrets are
/// not drawn again but masked into range, so a Monero draw is always valid.
pub fn generate(chain: ChainId, network: NetworkKind) -> (r: Result<KeyMaterial, KeyError>)
    ensures
        r matches Ok(k) ==> k.derived_from(chain, network, k.entropy()),
        r matches Err(e) ==> (e == KeyError::Entropy || (e == KeyError::Encoding && chain
            != ChainId::Xmr)),
{
    let want: usize = if chain == ChainId::Xmr { 64 } else { 32 };
    let mut draws: Vec<Vec<u8>> = Vec::new();
    let mut done = false;
    while draws.len() < MAX_DRAWS && !done
        invariant
            want == (if chain == ChainId::Xmr { 64usize } else { 32usize }),
            draws@.len() <= MAX_DRAWS,
            forall|j: int| 0 <= j < draws@.len() ==> (#[trigger] draws@[j])@.len() == want,
            chain == ChainId::Xmr && !done ==> draws@.len() == 0,
            done ==> draws@.len() > 0,
        decreases MAX_DRAWS - draws@.len(),
    {
        match random_bytes(want) {
            None => {
                return Err(KeyError::Entropy);
            },
            Some(d) => {
                let m = mask_draw(chain, &d);
                done = check_secret(chain, &m);
                proof {
                    if chain == ChainId::Xmr {
                        lemma_masked_xmr_ok(d@);
                    }
                }
                draws.push(d);
            },
        }
    }
    proof {
        if chain == ChainId::Xmr {
            assert(draws@.len() > 0);
            lemma_masked_xmr_ok(draws@[0]@);
        }
    }
    let r = first_valid(chain, network, &draws);
    proof {
        if r is Ok {
            let k = r->Ok_0;
            let i = choose|i: int|
                0 <= i < draws@.len() && k.derived_from(chain, network, masked(chain, #[trigger] draws@[i]@))
                    && forall|j: int| 0 <= j < i ==> !secret_ok(chain, masked(chain, #[trigger] draws@[j]@));
            assert(k.entropy() =~= masked(chain, draws@[i]@));
        }
    }
    r
}

/// The address is a function of the chain, the network and the secret bytes:
/// material derived twice from the same bytes carries the same address.
pub proof fn lemma_derivation_deterministic(
    c: ChainId,
    n: NetworkKind,
    e: Seq<u8>,
    k1: KeyMaterial,
    k2: KeyMaterial,
)
    requires
        k1.derived_from(c, n, e),
        k2.derived_from(c, n, e),
    ensures
        k1.address@ == k2.address@,
        k1.secret@ == k2.secret@,
        k1.view_secret@ == k2.view_secret@,
{
}

} // verus!
