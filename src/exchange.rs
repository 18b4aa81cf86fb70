use vstd::prelude::*;
use crate::chain::ChainId;

verus! {

/// Failures of the exchange protocol.
#[derive(Clone, Copy, Debug, PartialEq, Eq, Structural)]
pub enum ExchangeError {
    /// The service or the transport to it is down; worth retrying later.
    ServiceUnavailable,
    /// The service does not convert between these currencies.
    InvalidPair,
    /// The service declined the order.
    RejectedOrder,
    /// The response does not have the expected shape.
    MalformedResponse,
}

/// An estimate: `from_amount` of `from` becomes about `estimated_amount` of
/// `to` once sent to `deposit_address`. Amounts are in atomic units.
pub struct Quote {
    pub from: ChainId,
    pub to: ChainId,
    pub from_amount: u64,
    pub estimated_amount: u64,
    pub deposit_address: String,
}

/// A swap the exchange accepted.
pub struct SwapOrder {
    pub swap_id: String,
}

/// Decimal places of an atomic amount unit.
pub const FRAC_DIGITS: usize = 12;

/// Atomic units in one coin.
pub const UNITS_PER_COIN: u64 = 1_000_000_000_000;

pub open spec fn pow10(n: nat) -> nat
    decreases n,
{
    if n == 0 {
        1
    } else {
        10 * pow10((n - 1) as nat)
    }
}

pub open spec fn is_digit(c: char) -> bool {
    '0' <= c && c <= '9'
}

pub open spec fn all_digits(s: Seq<char>) -> bool {
    forall|i: int| 0 <= i < s.len() ==> is_digit(#[trigger] s[i])
}

/// The number a string of decimal digits denotes.
pub open spec fn digits_value(s: Seq<char>) -> nat
    decreases s.len(),
{
    if s.len() == 0 {
        0
    } else {
        digits_value(s.drop_last()) * 10 + (s.last() as int - '0' as int) as nat
    }
}

/// `s` is digits, a point at `k`, and one to `FRAC_DIGITS` more digits.
pub open spec fn point_at(s: Seq<char>, k: int) -> bool {
    &&& 0 < k < s.len() - 1
    &&& s[k] == '.'
    &&& all_digits(s.subrange(0, k))
    &&& all_digits(s.subrange(k + 1, s.len() as int))
    &&& s.len() - 1 - k <= FRAC_DIGITS
}

/// The amount, in atomic units, that a decimal text such as `0.001` or `12`
/// denotes; `None` for any other text.
pub open spec fn amount_of_text(s: Seq<char>) -> Option<nat> {
    if 0 < s.len() && all_digits(s) {
        Some(digits_value(s) * pow10(FRAC_DIGITS as nat))
    } else if exists|k: int| point_at(s, k) {
        let k = choose|k: int| point_at(s, k);
        let f = s.subrange(k + 1, s.len() as int);
        Some(digits_value(s.subrange(0, k)) * pow10(FRAC_DIGITS as nat) + digits_value(f) * pow10(
            (FRAC_DIGITS - f.len()) as nat,
        ))
    } else {
        None
    }
}

/// The atomic amount of a text, where it is well formed and fits in `u64`.
pub open spec fn parsed_amount(s: Seq<char>) -> Option<u64> {
    match amount_of_text(s) {
        Some(v) => if v <= u64::MAX {
            Some(v as u64)
        } else {
            None
        },
        None => None,
    }
}

proof fn lemma_digits_bound(s: Seq<char>)
    requires
        all_digits(s),
    ensures
        digits_value(s) < pow10(s.len()),
    decreases s.len(),
{
    if s.len() > 0 {
        let t = s.drop_last();
        assert(all_digits(t)) by {
            assert forall|i: int| 0 <= i < t.len() implies is_digit(#[trigger] t[i]) by {
                assert(t[i] == s[i]);
            }
        }
        lemma_digits_bound(t);
        assert(is_digit(s[s.len() - 1]));
    }
}

proof fn lemma_pow10_add(a: nat, b: nat)
    ensures
        pow10(a) * pow10(b) == pow10(a + b),
    decreases a,
{
    if a > 0 {
        lemma_pow10_add((a - 1) as nat, b);
        assert(pow10(a + b) == 10 * pow10((a - 1 + b) as nat));
        assert(pow10(a) * pow10(b) == 10 * (pow10((a - 1) as nat) * pow10(b))) by (nonlinear_arith)
            requires
                pow10(a) == 10 * pow10((a - 1) as nat),
        ;
    } else {
        assert(pow10(a) == 1);
    }
}

/// Reads `s[lo..hi]` as decimal digits: whether all are digits, and their
/// value where it fits in `u64`.
fn read_digits(s: &str, lo: usize, hi: usize) -> (r: (bool, Option<u64>))
    requires
        lo <= hi <= s@.len(),
    ensures
        r.0 == all_digits(s@.subrange(lo as int, hi as int)),
        r.0 ==> r.1 == (if digits_value(s@.subrange(lo as int, hi as int)) <= u64::MAX {
            Some(digits_value(s@.subrange(lo as int, hi as int)) as u64)
        } else {
            None::<u64>
        }),
{
    let ghost t = s@.subrange(lo as int, hi as int);
    let mut i: usize = lo;
    while i < hi
        invariant
            lo <= i <= hi <= s@.len(),
            t == s@.subrange(lo as int, hi as int),
            forall|j: int| 0 <= j < i - lo ==> is_digit(#[trigger] t[j]),
        decreases hi - i,
    {
        let c = s.get_char(i);
        if !(c >= '0' && c <= '9') {
            assert(t[i - lo] == c);
            return (false, None);
        }
        i = i + 1;
    }
    let mut acc: u64 = 0;
    let mut over: bool = false;
    let mut i: usize = lo;
    while i < hi
        invariant
            lo <= i <= hi <= s@.len(),
            t == s@.subrange(lo as int, hi as int),
            all_digits(t),
            !over ==> acc == digits_value(t.subrange(0, i - lo)),
            over ==> digits_value(t.subrange(0, i - lo)) > u64::MAX,
        decreases hi - i,
    {
        let c = s.get_char(i);
        proof {
            assert(t[i - lo] == c);
            assert(is_digit(t[i - lo]));
            assert(t.subrange(0, i - lo + 1).drop_last() =~= t.subrange(0, i - lo));
            assert(t.subrange(0, i - lo + 1).last() == c);
        }
        let d: u64 = (c as u32 - '0' as u32) as u64;
        if !over {
            if acc > (u64::MAX - d) / 10 {
                over = true;
            } else {
                acc = acc * 10 + d;
            }
        }
        i = i + 1;
    }
    proof {
        assert(t.subrange(0, t.len() as int) =~= t);
    }
    if over {
        (true, None)
    } else {
        (true, Some(acc))
    }
}

/// Parses a decimal amount such as `0.001` into atomic units (10^-12 of a
/// coin). `None` for text of any other shape, more than `FRAC_DIGITS`
/// decimals, or an amount beyond `u64`.
pub fn parse_amount(text: &str) -> (r: Option<u64>)
    ensures
        r == parsed_amount(text@),
{
    let ghost s = text@;
    let n = text.unicode_len();
    let mut k: usize = 0;
    while k < n && text.get_char(k) != '.'
        invariant
            k <= n == s.len(),
            s == text@,
            forall|j: int| 0 <= j < k ==> s[j] != '.',
        decreases n - k,
    {
        k = k + 1;
    }
    if k == n {
        let (ok, v) = read_digits(text, 0, n);
        proof {
            assert(s.subrange(0, n as int) =~= s);
            if ok {
                assert(!exists|q: int| point_at(s, q)) by {
                    if exists|q: int| point_at(s, q) {
                        let q = choose|q: int| point_at(s, q);
                        assert(s[q] == '.');
                    }
                }
            } else {
                assert(!exists|q: int| point_at(s, q));
            }
        }
        if n == 0 || !ok {
            return None;
        }
        match v {
            None => {
                proof {
                    lemma_pow10_pos(FRAC_DIGITS as nat);
                    assert(digits_value(s) * pow10(FRAC_DIGITS as nat) >= digits_value(s)) by (nonlinear_arith)
                        requires pow10(FRAC_DIGITS as nat) >= 1;
                }
                return None;
            },
            Some(x) => {
                proof {
                    lemma_pow10_scale();
                }
                return x.checked_mul(UNITS_PER_COIN);
            },
        }
    }
    assert(s[k as int] == '.');
    proof {
        assert(!all_digits(s));
    }
    let (int_ok, iv) = read_digits(text, 0, k);
    let (frac_ok, fv) = read_digits(text, k + 1, n);
    let flen = n - 1 - k;
    if !(k > 0 && k + 1 < n && int_ok && frac_ok && flen <= FRAC_DIGITS) {
        proof {
            if exists|q: int| point_at(s, q) {
                let q = choose|q: int| point_at(s, q);
                if q > k {
                    assert(s.subrange(0, q)[k as int] == '.');
                    assert(is_digit(s.subrange(0, q)[k as int]));
                }
                assert(q == k);
            }
        }
        return None;
    }
    proof {
        assert(point_at(s, k as int));
        let q = choose|q: int| point_at(s, q);
        if q > k {
            assert(s.subrange(0, q)[k as int] == '.');
            assert(is_digit(s.subrange(0, q)[k as int]));
        }
        assert(q == k);
    }
    let ghost ip = s.subrange(0, k as int);
    let ghost fp = s.subrange(k + 1, n as int);
    assert(fp.len() == flen);
    let ghost total = digits_value(ip) * pow10(FRAC_DIGITS as nat) + digits_value(fp) * pow10(
        (FRAC_DIGITS - fp.len()) as nat,
    );
    proof {
        lemma_pow10_scale();
    }
    let mut scale: u64 = 1;
    let mut j: usize = 0;
    while j < FRAC_DIGITS - flen
        invariant
            j <= FRAC_DIGITS - flen,
            scale == pow10(j as nat),
            flen <= FRAC_DIGITS,
        decreases FRAC_DIGITS - flen - j,
    {
        proof {
            lemma_pow10_scale();
            assert(pow10((j + 1) as nat) == 10 * pow10(j as nat));
            assert(pow10((FRAC_DIGITS - flen) as nat) <= pow10(FRAC_DIGITS as nat)) by {
                lemma_pow10_add((FRAC_DIGITS - flen) as nat, flen as nat);
                assert(pow10(flen as nat) >= 1) by {
                    lemma_pow10_add(0, flen as nat);
                    lemma_pow10_pos(flen as nat);
                }
                assert(pow10((FRAC_DIGITS - flen) as nat) * pow10(flen as nat) >= pow10((FRAC_DIGITS - flen) as nat)) by (nonlinear_arith)
                    requires pow10(flen as nat) >= 1;
            }
            lemma_pow10_pos((FRAC_DIGITS - flen - j - 1) as nat);
            lemma_pow10_add((j + 1) as nat, (FRAC_DIGITS - flen - j - 1) as nat);
            assert(pow10((j + 1) as nat) <= pow10((FRAC_DIGITS - flen) as nat)) by (nonlinear_arith)
                requires
                    pow10((j + 1) as nat) * pow10((FRAC_DIGITS - flen - j - 1) as nat) == pow10((FRAC_DIGITS - flen) as nat),
                    pow10((FRAC_DIGITS - flen - j - 1) as nat) >= 1;
        }
        scale = scale * 10;
        j = j + 1;
    }
    proof {
        lemma_pow10_pos((FRAC_DIGITS - fp.len()) as nat);
        lemma_pow10_scale();
        lemma_digits_bound(fp);
        lemma_pow10_add(fp.len(), (FRAC_DIGITS - fp.len()) as nat);
        assert(digits_value(fp) * pow10((FRAC_DIGITS - fp.len()) as nat) < pow10(FRAC_DIGITS as nat)) by (nonlinear_arith)
            requires
                digits_value(fp) < pow10(fp.len()),
                pow10(fp.len()) * pow10((FRAC_DIGITS - fp.len()) as nat) == pow10(FRAC_DIGITS as nat),
                pow10((FRAC_DIGITS - fp.len()) as nat) >= 1;
        assert(digits_value(fp) <= digits_value(fp) * pow10((FRAC_DIGITS - fp.len()) as nat)) by (nonlinear_arith)
            requires
                pow10((FRAC_DIGITS - fp.len()) as nat) >= 1;
        assert(amount_of_text(s) == Some(total));
    }
    let f: u64 = match fv {
        Some(x) => x,
        None => 0,
    };
    let low: u64 = f * scale;
    match iv {
        None => {
            proof {
                lemma_pow10_pos(FRAC_DIGITS as nat);
                lemma_pow10_pos((FRAC_DIGITS - fp.len()) as nat);
                assert(total >= digits_value(ip)) by (nonlinear_arith)
                    requires
                        total == digits_value(ip) * pow10(FRAC_DIGITS as nat) + digits_value(fp) * pow10((FRAC_DIGITS - fp.len()) as nat),
                        pow10(FRAC_DIGITS as nat) >= 1;
            }
            None
        },
        Some(x) => match x.checked_mul(UNITS_PER_COIN) {
            None => None,
            Some(high) => high.checked_add(low),
        },
    }
}

proof fn lemma_pow10_scale()
    ensures
        pow10(FRAC_DIGITS as nat) == UNITS_PER_COIN,
{
    reveal_with_fuel(pow10, 13);
}

proof fn lemma_pow10_pos(n: nat)
    ensures
        pow10(n) >= 1,
    decreases n,
{
    if n > 0 {
        lemma_pow10_pos((n - 1) as nat);
    }
}

/// The error an HTTP status of an estimate response stands for, `None` for success.
pub open spec fn estimate_status_spec(code: u16) -> Option<ExchangeError> {
    if 200 <= code <= 299 {
        None
    } else if 500 <= code <= 599 {
        Some(ExchangeError::ServiceUnavailable)
    } else if 400 <= code <= 499 {
        Some(ExchangeError::InvalidPair)
    } else {
        Some(ExchangeError::MalformedResponse)
    }
}

/// The error an HTTP status of a swap-creation response stands for, `None` for success.
pub open spec fn swap_status_spec(code: u16) -> Option<ExchangeError> {
    if 200 <= code <= 299 {
        None
    } else if 500 <= code <= 599 {
        Some(ExchangeError::ServiceUnavailable)
    } else if code == 404 {
        Some(ExchangeError::InvalidPair)
    } else if 400 <= code <= 499 {
        Some(ExchangeError::RejectedOrder)
    } else {
        Some(ExchangeError::MalformedResponse)
    }
}

/// Classifies the HTTP status of an estimate response: server errors are
/// `ServiceUnavailable`, client errors `InvalidPair`.
pub fn estimate_status(code: u16) -> (r: Option<ExchangeError>)
    ensures
        r == estimate_status_spec(code),
{
    if 200 <= code && code <= 299 {
        None
    } else if 500 <= code && code <= 599 {
        Some(ExchangeError::ServiceUnavailable)
    } else if 400 <= code && code <= 499 {
        Some(ExchangeError::InvalidPair)
    } else {
        Some(ExchangeError::MalformedResponse)
    }
}

/// Classifies the HTTP status of a swap-creation response: server errors
/// are `ServiceUnavailable`, not found (no such pair) `InvalidPair`, other
/// client errors `RejectedOrder`.
pub fn swap_status(code: u16) -> (r: Option<ExchangeError>)
    ensures
        r == swap_status_spec(code),
{
    if 200 <= code && code <= 299 {
        None
    } else if 500 <= code && code <= 599 {
        Some(ExchangeError::ServiceUnavailable)
    } else if code == 404 {
        Some(ExchangeError::InvalidPair)
    } else if 400 <= code && code <= 499 {
        Some(ExchangeError::RejectedOrder)
    } else {
        Some(ExchangeError::MalformedResponse)
    }
}

/// The fields of an estimate response make a quote for `requested` units:
/// both amounts are decimal text, the quoted amount is the one asked for, and
/// the deposit address is not empty.
pub open spec fn quote_fields_ok(
    requested: u64,
    from_amount: Option<String>,
    estimated_amount: Option<String>,
    address: Option<String>,
) -> bool {
    &&& from_amount matches Some(t) && parsed_amount(t@) == Some(requested)
    &&& estimated_amount matches Some(t) && parsed_amount(t@) is Some
    &&& address matches Some(a) && a@.len() > 0
}

/// Checks the fields of an estimate response, given as text where present,
/// and builds the quote. Anything missing or ill-formed is `MalformedResponse`.
pub fn quote_from_fields(
    from: ChainId,
    to: ChainId,
    requested: u64,
    from_amount: Option<String>,
    estimated_amount: Option<String>,
    address: Option<String>,
) -> (r: Result<Quote, ExchangeError>)
    ensures
        r is Ok <==> quote_fields_ok(requested, from_amount, estimated_amount, address),
        r matches Err(e) ==> e == ExchangeError::MalformedResponse,
        r matches Ok(q) ==> q.from == from && q.to == to && q.from_amount == requested && Some(
            q.estimated_amount,
        ) == parsed_amount(estimated_amount->Some_0@) && q.deposit_address@ == address->Some_0@,
{
    let fa = match &from_amount {
        Some(t) => parse_amount(t.as_str()),
        None => None,
    };
    let ea = match &estimated_amount {
        Some(t) => parse_amount(t.as_str()),
        None => None,
    };
    match (fa, ea, address) {
        (Some(f), Some(e), Some(a)) => {
            if f != requested || a.unicode_len() == 0 {
                return Err(ExchangeError::MalformedResponse);
            }
            Ok(Quote { from, to, from_amount: f, estimated_amount: e, deposit_address: a })
        },
        _ => Err(ExchangeError::MalformedResponse),
    }
}

/// Checks the `id` field of a swap-creation response: a missing or empty id
/// is `MalformedResponse`, never a default.
pub fn swap_from_field(id: Option<String>) -> (r: Result<SwapOrder, ExchangeError>)
    ensures
        r is Ok <==> (id matches Some(t) && t@.len() > 0),
        r matches Err(e) ==> e == ExchangeError::MalformedResponse,
        r matches Ok(o) ==> o.swap_id@ == id->Some_0@,
{
    match id {
        Some(t) => {
            if t.unicode_len() == 0 {
                Err(ExchangeError::MalformedResponse)
            } else {
                Ok(SwapOrder { swap_id: t })
            }
        },
        None => Err(ExchangeError::MalformedResponse),
    }
}

/// Whole coins and the remaining atomic units of an amount, for writing it
/// as decimal text.
pub fn amount_parts(units: u64) -> (r: (u64, u64))
    ensures
        r.0 * UNITS_PER_COIN + r.1 == units,
        r.1 < UNITS_PER_COIN,
{
    (units / UNITS_PER_COIN, units % UNITS_PER_COIN)
}

} // verus!
