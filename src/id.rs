//! History item identifiers: a millisecond timestamp packed above a 16-bit nonce,
//! and their 11-character base64 text form.
use vstd::prelude::*;

verus! {

/// One more than the largest millisecond timestamp that an identifier can hold.
pub const TIMESTAMP_LIMIT: u64 = 0x1_0000_0000_0000;

/// Number of distinct nonces: the low 16 bits of an identifier.
pub const NONCE_SPAN: u64 = 0x10000;

/// Length of the base64 text of an identifier.
pub const ID_TEXT_LEN: usize = 11;

/// The raw value of the identifier made of a timestamp (kept modulo 2^48) and a nonce.
pub open spec fn pack_id(timestamp_ms: u64, nonce: u16) -> u64 {
    ((timestamp_ms % TIMESTAMP_LIMIT) * NONCE_SPAN + nonce) as u64
}

/// History items are identified by a u64 whose high 48 bits are milliseconds since the
/// epoch and whose low 16 bits are a nonce. All records of one item share its identifier.
#[derive(Clone, Copy, Debug, PartialEq, Eq, Structural, PartialOrd, Ord, Hash)]
pub struct HistoryItemId(pub u64);

impl HistoryItemId {
    /// Create an identifier from a timestamp in milliseconds and a nonce.
    /// Timestamps past 2^48 ms wrap around, as the packing keeps 48 bits.
    pub fn new(timestamp_ms: u64, nonce: u16) -> (r: Self)
        ensures
            r.0 == pack_id(timestamp_ms, nonce),
    {
        let ms = timestamp_ms % TIMESTAMP_LIMIT;
        assert(ms * NONCE_SPAN + nonce as u64 <= u64::MAX) by (nonlinear_arith)
            requires ms < TIMESTAMP_LIMIT, nonce < NONCE_SPAN;
        HistoryItemId(ms * NONCE_SPAN + nonce as u64)
    }

    /// The timestamp, in milliseconds since the epoch, encoded in this identifier.
    pub fn timestamp(self) -> (r: u64)
        ensures
            r == self.0 / NONCE_SPAN,
    {
        self.0 / NONCE_SPAN
    }

    /// The raw 64-bit representation.
    pub fn raw(self) -> (r: u64)
        ensures
            r == self.0,
    {
        self.0
    }

    /// Construct directly from a raw 64-bit identifier.
    pub fn from_raw(value: u64) -> (r: Self)
        ensures
            r.0 == value,
    {
        HistoryItemId(value)
    }
}

/// The timestamp of an identifier made from a timestamp and a nonce is that timestamp,
/// taken modulo 2^48 milliseconds.
pub proof fn lemma_timestamp_of_new(timestamp_ms: u64, nonce: u16)
    ensures
        pack_id(timestamp_ms, nonce) / NONCE_SPAN == timestamp_ms % TIMESTAMP_LIMIT,
        timestamp_ms < TIMESTAMP_LIMIT ==> pack_id(timestamp_ms, nonce) / NONCE_SPAN
            == timestamp_ms,
{
    let ms: int = (timestamp_ms % TIMESTAMP_LIMIT) as int;
    let n: int = nonce as int;
    assert((ms * 0x10000 + n) / 0x10000 == ms) by (nonlinear_arith)
        requires 0 <= n < 0x10000, 0 <= ms;
    assert(ms * 0x10000 + n <= u64::MAX) by (nonlinear_arith)
        requires 0 <= n < 0x10000, 0 <= ms < 0x1_0000_0000_0000;
}

/// The value of a base64 digit, or -1 for a character outside both base64 alphabets.
/// Both the URL-safe (`-`, `_`) and the standard (`+`, `/`) forms of the last two
/// digits are read.
pub open spec fn b64_digit(c: u8) -> int {
    if 65 <= c <= 90 {
        c - 65
    } else if 97 <= c <= 122 {
        c - 97 + 26
    } else if 48 <= c <= 57 {
        c - 48 + 52
    } else if c == 45 || c == 43 {
        62
    } else if c == 95 || c == 47 {
        63
    } else {
        -1
    }
}

/// The URL-safe base64 symbol of a digit in 0..64.
pub open spec fn b64_symbol(d: int) -> u8 {
    if d < 26 {
        (d + 65) as u8
    } else if d < 52 {
        (d - 26 + 97) as u8
    } else if d < 62 {
        (d - 52 + 48) as u8
    } else if d == 62 {
        45u8
    } else {
        95u8
    }
}

/// Whether every byte is a base64 digit.
pub open spec fn all_b64_digits(s: Seq<u8>) -> bool {
    forall|i: int| 0 <= i < s.len() ==> b64_digit(#[trigger] s[i]) >= 0
}

/// Whether every byte is a URL-safe base64 symbol.
pub open spec fn all_url_safe(s: Seq<u8>) -> bool {
    forall|i: int| 0 <= i < s.len() ==> #[trigger] s[i] == b64_symbol(b64_digit(s[i]))
}

/// The number that a sequence of base64 digits spells, most significant digit first.
pub open spec fn b64_value(s: Seq<u8>) -> int
    decreases s.len(),
{
    if s.len() == 0 {
        0
    } else {
        b64_value(s.drop_last()) * 64 + b64_digit(s.last())
    }
}

/// The identifier text decodes to `x`: eleven digits spelling 4 * x (8 bytes, big-endian,
/// followed by two zero bits of padding).
pub open spec fn decodes_to(s: Seq<u8>, x: u64) -> bool {
    s.len() == ID_TEXT_LEN && all_b64_digits(s) && b64_value(s) == 4 * x
}

/// The value that an identifier text decodes to: eleven base64 digits whose two padding
/// bits are zero.
pub open spec fn b64_decoded(s: Seq<u8>) -> Option<u64> {
    if s.len() == ID_TEXT_LEN && all_b64_digits(s) && b64_value(s) % 4 == 0 {
        Some((b64_value(s) / 4) as u64)
    } else {
        None
    }
}

/// 64 to the power n.
pub open spec fn pow64(n: nat) -> int
    decreases n,
{
    if n == 0 {
        1
    } else {
        pow64((n - 1) as nat) * 64
    }
}

proof fn lemma_b64_injective(a: Seq<u8>, b: Seq<u8>)
    requires
        a.len() == b.len(),
        all_b64_digits(a),
        all_b64_digits(b),
        all_url_safe(a),
        all_url_safe(b),
        b64_value(a) == b64_value(b),
    ensures
        a == b,
    decreases a.len(),
{
    if a.len() > 0 {
        let pa = a.drop_last();
        let pb = b.drop_last();
        assert(all_b64_digits(pa) && all_url_safe(pa)) by {
            assert forall|i: int| 0 <= i < pa.len() implies b64_digit(#[trigger] pa[i]) >= 0 by {
                assert(pa[i] == a[i]);
            }
            assert forall|i: int| 0 <= i < pa.len() implies #[trigger] pa[i] == b64_symbol(
                b64_digit(pa[i]),
            ) by {
                assert(pa[i] == a[i]);
            }
        }
        assert(all_b64_digits(pb) && all_url_safe(pb)) by {
            assert forall|i: int| 0 <= i < pb.len() implies b64_digit(#[trigger] pb[i]) >= 0 by {
                assert(pb[i] == b[i]);
            }
            assert forall|i: int| 0 <= i < pb.len() implies #[trigger] pb[i] == b64_symbol(
                b64_digit(pb[i]),
            ) by {
                assert(pb[i] == b[i]);
            }
        }
        let da = b64_digit(a.last());
        let db = b64_digit(b.last());
        assert(b64_digit(a[a.len() - 1]) >= 0);
        assert(b64_digit(b[b.len() - 1]) >= 0);
        let va = b64_value(pa);
        let vb = b64_value(pb);
        assert(va == vb && da == db) by (nonlinear_arith)
            requires va * 64 + da == vb * 64 + db, 0 <= da < 64, 0 <= db < 64;
        lemma_b64_injective(pa, pb);
        assert(a[a.len() - 1] == b64_symbol(b64_digit(a[a.len() - 1])));
        assert(b[b.len() - 1] == b64_symbol(b64_digit(b[b.len() - 1])));
        assert(a =~= pa.push(a.last()));
        assert(b =~= pb.push(b.last()));
    }
}

fn b64_symbol_exec(d: u64) -> (r: u8)
    requires
        d < 64,
    ensures
        r == b64_symbol(d as int),
        b64_digit(r) == d,
{
    if d < 26 {
        (d + 65) as u8
    } else if d < 52 {
        (d - 26 + 97) as u8
    } else if d < 62 {
        (d - 52 + 48) as u8
    } else if d == 62 {
        45u8
    } else {
        95u8
    }
}

fn b64_digit_exec(c: u8) -> (r: i32)
    ensures
        r == b64_digit(c),
{
    if 65 <= c && c <= 90 {
        c as i32 - 65
    } else if 97 <= c && c <= 122 {
        c as i32 - 97 + 26
    } else if 48 <= c && c <= 57 {
        c as i32 - 48 + 52
    } else if c == 45 || c == 43 {
        62
    } else if c == 95 || c == 47 {
        63
    } else {
        -1
    }
}

/// The n least significant base64 digits of v, most significant first, as URL-safe symbols.
pub open spec fn b64_digits_of(v: int, n: nat) -> Seq<u8>
    decreases n,
{
    if n == 0 {
        Seq::empty()
    } else {
        b64_digits_of(v / 64, (n - 1) as nat).push(b64_symbol(v % 64))
    }
}

proof fn lemma_pow64_positive(n: nat)
    ensures
        pow64(n) > 0,
    decreases n,
{
    if n > 0 {
        lemma_pow64_positive((n - 1) as nat);
    }
}

/// The digits that `b64_digits_of` gives are `n` URL-safe symbols, and they spell `v`
/// modulo 64^n.
pub proof fn lemma_b64_digits_of(v: int, n: nat)
    requires
        v >= 0,
    ensures
        b64_digits_of(v, n).len() == n,
        all_b64_digits(b64_digits_of(v, n)),
        all_url_safe(b64_digits_of(v, n)),
        b64_value(b64_digits_of(v, n)) + (v / pow64(n)) * pow64(n) == v,
    decreases n,
{
    if n > 0 {
        let m = (n - 1) as nat;
        lemma_b64_digits_of(v / 64, m);
        let p = b64_digits_of(v / 64, m);
        let d = b64_digits_of(v, n);
        assert(d.drop_last() =~= p);
        let r = v % 64;
        assert(0 <= r < 64);
        assert(b64_digit(b64_symbol(r)) == r);
        assert(b64_symbol(b64_digit(b64_symbol(r))) == b64_symbol(r));
        assert forall|i: int| 0 <= i < d.len() implies b64_digit(#[trigger] d[i]) >= 0 by {
            if i < p.len() {
                assert(d[i] == p[i]);
            }
        }
        assert forall|i: int| 0 <= i < d.len() implies #[trigger] d[i] == b64_symbol(
            b64_digit(d[i]),
        ) by {
            if i < p.len() {
                assert(d[i] == p[i]);
            }
        }
        lemma_pow64_positive(m);
        vstd::arithmetic::div_mod::lemma_div_denominator(v, 64, pow64(m));
        let q = v / 64;
        let pm = pow64(m);
        assert(pow64(n) == pm * 64);
        assert(b64_value(p) + (q / pm) * pm == q);
        assert(b64_value(d) == b64_value(p) * 64 + r);
        assert(v == 64 * q + r) by {
            vstd::arithmetic::div_mod::lemma_fundamental_div_mod(v, 64);
        }
        assert(b64_value(d) + (v / pow64(n)) * pow64(n) == v) by (nonlinear_arith)
            requires
                b64_value(p) + (q / pm) * pm == q,
                b64_value(d) == b64_value(p) * 64 + r,
                v == 64 * q + r,
                v / pow64(n) == q / pm,
                pow64(n) == pm * 64,
        ;
    }
}

fn b64_digits_exec(v: u128, n: usize) -> (r: Vec<u8>)
    ensures
        r@ == b64_digits_of(v as int, n as nat),
    decreases n,
{
    if n == 0 {
        Vec::new()
    } else {
        let mut r = b64_digits_exec(v / 64, n - 1);
        let c = b64_symbol_exec((v % 64) as u64);
        r.push(c);
        r
    }
}

/// Encode an identifier value as eleven URL-safe base64 digits, without padding.
pub fn base64_encode_u64(x: u64) -> (r: Vec<u8>)
    ensures
        r@ == b64_digits_of(4 * x, 11),
        forall|i: int| 0 <= i < r@.len() ==> #[trigger] r@[i] < 128,
        decodes_to(r@, x),
        all_url_safe(r@),
{
    let v: u128 = 4 * (x as u128);
    let r = b64_digits_exec(v, ID_TEXT_LEN);
    proof {
        lemma_b64_digits_of(v as int, 11);
        lemma_pow64_values();
        vstd::arithmetic::div_mod::lemma_basic_div(v as int, pow64(11));
    }
    r
}

/// Decode eleven base64 digits into an identifier value. Fails on any other length, on a
/// byte outside the base64 alphabets, and where the two padding bits are not zero.
pub fn base64_decode_u64(s: &[u8]) -> (r: Option<u64>)
    ensures
        r == b64_decoded(s@),
        r matches Some(x) ==> decodes_to(s@, x),
{
    if s.len() != ID_TEXT_LEN {
        return None;
    }
    let mut acc: u128 = 0;
    let mut k: usize = 0;
    while k < ID_TEXT_LEN
        invariant
            s@.len() == ID_TEXT_LEN,
            k <= ID_TEXT_LEN,
            all_b64_digits(s@.subrange(0, k as int)),
            acc == b64_value(s@.subrange(0, k as int)),
            acc < pow64(k as nat),
        decreases ID_TEXT_LEN - k,
    {
        let d = b64_digit_exec(s[k]);
        if d < 0 {
            proof {
                assert(b64_digit(s@[k as int]) < 0);
            }
            return None;
        }
        let ghost prev = s@.subrange(0, k as int);
        let ghost next = s@.subrange(0, k + 1);
        proof {
            assert(next.drop_last() =~= prev);
            assert(next.last() == s@[k as int]);
            assert forall|i: int| 0 <= i < next.len() implies b64_digit(#[trigger] next[i]) >= 0 by {
                if i < k {
                    assert(next[i] == prev[i]);
                }
            }
            assert(pow64((k + 1) as nat) == pow64(k as nat) * 64);
            assert(pow64(k as nat) <= pow64(10)) by {
                lemma_pow64_monotone(k as nat, 10);
            }
            lemma_pow64_values();
            assert(acc * 64 + d < pow64(k as nat) * 64) by (nonlinear_arith)
                requires acc < pow64(k as nat), 0 <= d < 64;
        }
        acc = acc * 64 + d as u128;
        k = k + 1;
    }
    proof {
        assert(s@.subrange(0, 11) =~= s@);
        lemma_pow64_values();
    }
    if acc % 4 != 0 {
        return None;
    }
    Some((acc / 4) as u64)
}

proof fn lemma_pow64_values()
    ensures
        pow64(10) == 0x1000000000000000,
        pow64(11) == 0x40000000000000000,
{
    reveal_with_fuel(pow64, 12);
}

proof fn lemma_pow64_monotone(a: nat, b: nat)
    requires
        a <= b,
    ensures
        pow64(a) <= pow64(b),
    decreases b,
{
    if a < b {
        lemma_pow64_monotone(a, (b - 1) as nat);
        lemma_pow64_positive((b - 1) as nat);
    }
}

/// Encoding the value that a URL-safe identifier text decodes to gives back that text;
/// decoding the text that encoding a value gives returns the value. (`base64_encode_u64`
/// returns `b64_digits_of(4 * x, 11)` and `base64_decode_u64` returns `b64_decoded`.)
pub proof fn lemma_base64_round_trip(s: Seq<u8>, x: u64)
    ensures
        b64_decoded(s) == Some(x) && all_url_safe(s) ==> b64_digits_of(4 * x, 11) == s,
        b64_decoded(b64_digits_of(4 * x, 11)) == Some(x),
{
    lemma_b64_digits_of(4 * x, 11);
    lemma_pow64_values();
    vstd::arithmetic::div_mod::lemma_basic_div(4 * x, pow64(11));
    let t = b64_digits_of(4 * x, 11);
    assert(b64_value(t) == 4 * x);
    assert(b64_value(t) % 4 == 0);
    if b64_decoded(s) == Some(x) && all_url_safe(s) {
        let v = b64_value(s);
        lemma_b64_bounds(s);
        assert(0 <= v < 0x40000000000000000);
        assert(v / 4 < 0x10000000000000000) by (nonlinear_arith)
            requires 0 <= v < 0x40000000000000000;
        assert(v / 4 == x);
        assert(v == 4 * (v / 4) + v % 4) by {
            vstd::arithmetic::div_mod::lemma_fundamental_div_mod(v, 4);
        }
        assert(b64_value(s) == 4 * x);
        lemma_b64_injective(t, s);
    }
}

proof fn lemma_b64_bounds(s: Seq<u8>)
    requires
        all_b64_digits(s),
    ensures
        0 <= b64_value(s) < pow64(s.len()),
    decreases s.len(),
{
    if s.len() > 0 {
        let p = s.drop_last();
        assert(all_b64_digits(p)) by {
            assert forall|i: int| 0 <= i < p.len() implies b64_digit(#[trigger] p[i]) >= 0 by {
                assert(p[i] == s[i]);
            }
        }
        lemma_b64_bounds(p);
        assert(b64_digit(s[s.len() - 1]) >= 0);
        let v = b64_value(p);
        let d = b64_digit(s.last());
        assert(v * 64 + d < pow64(p.len()) * 64) by (nonlinear_arith)
            requires 0 <= v < pow64(p.len()), 0 <= d < 64;
    }
}

/// Every digit that `b64_digits_of` gives is an ASCII byte.
pub proof fn lemma_b64_digits_of_ascii(v: int, n: nat)
    ensures
        forall|i: int| 0 <= i < b64_digits_of(v, n).len() ==> (#[trigger] b64_digits_of(v, n)[i]) < 128,
    decreases n,
{
    if n > 0 {
        lemma_b64_digits_of_ascii(v / 64, (n - 1) as nat);
        let p = b64_digits_of(v / 64, (n - 1) as nat);
        let d = b64_digits_of(v, n);
        assert forall|i: int| 0 <= i < d.len() implies (#[trigger] d[i]) < 128 by {
            if i < p.len() {
                assert(d[i] == p[i]);
            }
        }
    }
}

} // verus!
