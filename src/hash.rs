//! Content hashes: 32-byte digests, their hexadecimal spelling, and the
//! byte ranges that a hexadecimal prefix selects.

use vstd::prelude::*;
use vstd::utf8::encode_utf8;

verus! {

/// Number of bytes in a content hash.
pub const HASH_LEN: usize = 32;

/// Number of hexadecimal digits that spell a whole content hash.
pub const HASH_DIGITS: usize = 64;

/// The lower-case hexadecimal digit of a value below 16.
pub open spec fn hex_digit(n: int) -> char {
    if n < 10 {
        (n + 48) as char
    } else {
        (n + 87) as char
    }
}

/// The `i`-th half-byte of `h`, most significant half first.
pub open spec fn nibble(h: Seq<u8>, i: int) -> int {
    if i % 2 == 0 {
        h[i / 2] as int / 16
    } else {
        h[i / 2] as int % 16
    }
}

/// The lower-case hexadecimal spelling of `b`, two digits per byte.
pub open spec fn hex_chars(b: Seq<u8>) -> Seq<char> {
    Seq::new(2 * b.len(), |i: int| hex_digit(nibble(b, i)))
}

/// Whether `c` is an ASCII hexadecimal digit, in either case.
pub open spec fn is_hex_digit(c: u8) -> bool {
    (48 <= c <= 57) || (97 <= c <= 102) || (65 <= c <= 70)
}

/// The value of an ASCII hexadecimal digit.
pub open spec fn hex_value(c: u8) -> int {
    if 48 <= c <= 57 {
        c - 48
    } else if 97 <= c <= 102 {
        c - 87
    } else {
        c - 55
    }
}

pub open spec fn all_hex_digits(d: Seq<u8>) -> bool {
    forall|i: int| 0 <= i < d.len() ==> is_hex_digit(#[trigger] d[i])
}

/// The bytes that an even number of hexadecimal digits spell.
pub open spec fn hex_decoded(d: Seq<u8>) -> Seq<u8> {
    Seq::new(d.len() / 2, |i: int| (hex_value(d[2 * i]) * 16 + hex_value(d[2 * i + 1])) as u8)
}

/// Whether the hexadecimal digits `d` spell the first half-bytes of `h`
/// (digits of either case).
pub open spec fn prefix_matches(d: Seq<u8>, h: Seq<u8>) -> bool {
    &&& d.len() <= 2 * h.len()
    &&& forall|i: int| 0 <= i < d.len() ==> hex_value(#[trigger] d[i]) == nibble(h, i)
}

/// What `blake3::hash` returns for the given bytes.
pub uninterp spec fn blake3_of(bytes: Seq<u8>) -> Seq<u8>;

/// Relies on `blake3::hash`: a 32-byte digest that depends on the bytes alone.
#[verifier::external_body]
fn blake3_digest(bytes: &[u8]) -> (r: [u8; 32])
    ensures
        r@ == blake3_of(bytes@),
{
    blake3::hash(bytes).into()
}

/// Relies on `hex::encode`: two lower-case digits per byte, high half first.
#[verifier::external_body]
fn encode_hex(bytes: &[u8; 32]) -> (r: String)
    ensures
        r@ == hex_chars(bytes@),
{
    hex::encode(bytes)
}

#[verifier::external_type_specification]
#[verifier::external_body]
pub struct ExFromHexError(hex::FromHexError);

/// Relies on `hex::decode`: an odd number of digits, or a byte that is not a
/// hexadecimal digit, is an error; otherwise each pair of digits gives one
/// byte, high half first.
#[verifier::external_body]
fn decode_hex(digits: &[u8]) -> (r: Result<Vec<u8>, hex::FromHexError>)
    ensures
        r is Ok <==> (digits@.len() % 2 == 0 && all_hex_digits(digits@)),
        r matches Ok(v) ==> v@ == hex_decoded(digits@),
{
    hex::decode(digits)
}

/// A 32-byte content hash of a document's file.
#[derive(Clone, Copy, PartialEq, Eq, PartialOrd, Ord, Hash, Debug)]
pub struct DocHash(pub [u8; 32]);

impl DocHash {
    /// The content hash of `bytes`.
    pub fn from_bytes(bytes: &[u8]) -> (r: DocHash)
        ensures
            r.0@ == blake3_of(bytes@),
    {
        DocHash(blake3_digest(bytes))
    }

    /// The 64 lower-case hexadecimal digits of this hash.
    pub fn to_hex(&self) -> (r: String)
        ensures
            r@ == hex_chars(self.0@),
            r@.len() == HASH_DIGITS,
    {
        encode_hex(&self.0)
    }
}

/// The 64 half-bytes of a hash, most significant first.
pub open spec fn nibbles(h: Seq<u8>) -> Seq<int> {
    Seq::new(2 * h.len(), |i: int| nibble(h, i))
}

/// `x` is at most `y` in lexicographic order (both of one length).
pub open spec fn lex_le(x: Seq<int>, y: Seq<int>) -> bool {
    forall|i: int|
        0 <= i < x.len() && #[trigger] x.subrange(0, i) =~= y.subrange(0, i) ==> x[i] <= y[i]
}

/// The half-bytes of the lowest hash that the digits `d` begin: `d`, then
/// zeros.
pub open spec fn low_nibbles(d: Seq<u8>) -> Seq<int> {
    Seq::new(HASH_DIGITS as nat, |i: int| if i < d.len() { hex_value(d[i]) } else { 0 })
}

/// The half-bytes of the highest hash that the digits `d` begin: `d`, then
/// fifteens.
pub open spec fn high_nibbles(d: Seq<u8>) -> Seq<int> {
    Seq::new(HASH_DIGITS as nat, |i: int| if i < d.len() { hex_value(d[i]) } else { 15 })
}

/// A hash lies between the lowest and the highest hash that a prefix begins
/// exactly when the prefix spells its first half-bytes.
pub proof fn lemma_range_is_prefix(d: Seq<u8>, h: Seq<u8>)
    requires
        h.len() == HASH_LEN,
        d.len() <= HASH_DIGITS,
        all_hex_digits(d),
    ensures
        (lex_le(low_nibbles(d), nibbles(h)) && lex_le(nibbles(h), high_nibbles(d)))
            <==> prefix_matches(d, h),
{
    let lo = low_nibbles(d);
    let hi = high_nibbles(d);
    let n = nibbles(h);
    assert forall|i: int| 0 <= i < 2 * h.len() implies 0 <= #[trigger] nibble(h, i) < 16 by {}
    if prefix_matches(d, h) {
        assert forall|i: int| 0 <= i < lo.len() && #[trigger] lo.subrange(0, i) =~= n.subrange(0, i)
            implies lo[i] <= n[i] by {}
        assert forall|i: int| 0 <= i < n.len() && #[trigger] n.subrange(0, i) =~= hi.subrange(0, i)
            implies n[i] <= hi[i] by {}
    }
    if lex_le(lo, n) && lex_le(n, hi) {
        lemma_range_prefix_upto(d, h, d.len() as int);
    }
}

proof fn lemma_range_prefix_upto(d: Seq<u8>, h: Seq<u8>, k: int)
    requires
        h.len() == HASH_LEN,
        d.len() <= HASH_DIGITS,
        0 <= k <= d.len(),
        all_hex_digits(d),
        lex_le(low_nibbles(d), nibbles(h)),
        lex_le(nibbles(h), high_nibbles(d)),
    ensures
        forall|i: int| 0 <= i < k ==> hex_value(#[trigger] d[i]) == nibble(h, i),
    decreases k,
{
    if k > 0 {
        lemma_range_prefix_upto(d, h, k - 1);
        let lo = low_nibbles(d);
        let hi = high_nibbles(d);
        let n = nibbles(h);
        assert(lo.subrange(0, k - 1) =~= n.subrange(0, k - 1));
        assert(n.subrange(0, k - 1) =~= hi.subrange(0, k - 1));
        assert(lo[k - 1] <= n[k - 1]);
        assert(n[k - 1] <= hi[k - 1]);
    }
}

/// The half-byte `i` of `b`.
fn nibble_at(b: &[u8; 32], i: usize) -> (r: u8)
    requires
        i < HASH_DIGITS,
    ensures
        r as int == nibble(b@, i as int),
{
    let byte = b[i / 2];
    if i % 2 == 0 {
        byte / 16
    } else {
        byte % 16
    }
}

/// Whether `a` is at most `b`, half-byte by half-byte.
pub fn nibbles_le(a: &[u8; 32], b: &[u8; 32]) -> (r: bool)
    ensures
        r == lex_le(nibbles(a@), nibbles(b@)),
{
    let ghost x = nibbles(a@);
    let ghost y = nibbles(b@);
    let mut i: usize = 0;
    while i < HASH_DIGITS
        invariant
            i <= HASH_DIGITS,
            x == nibbles(a@),
            y == nibbles(b@),
            x.len() == HASH_DIGITS && y.len() == HASH_DIGITS,
            x.subrange(0, i as int) =~= y.subrange(0, i as int),
        decreases HASH_DIGITS - i,
    {
        let p = nibble_at(a, i);
        let q = nibble_at(b, i);
        if p != q {
            proof {
                assert forall|j: int|
                    0 <= j < x.len() && #[trigger] x.subrange(0, j) =~= y.subrange(0, j) implies j
                    <= i by {
                    if j > i {
                        assert(x.subrange(0, j)[i as int] == y.subrange(0, j)[i as int]);
                    }
                }
                if p > q {
                    assert(!(x[i as int] <= y[i as int]));
                }
                if p < q {
                    assert forall|j: int|
                        0 <= j < x.len() && #[trigger] x.subrange(0, j) =~= y.subrange(0, j) implies x[j]
                        <= y[j] by {
                        if j < i {
                            assert(x.subrange(0, i as int)[j] == y.subrange(0, i as int)[j]);
                        }
                    }
                }
            }
            return p < q;
        }
        proof {
            assert(x.subrange(0, i + 1) =~= y.subrange(0, i + 1));
        }
        i = i + 1;
    }
    proof {
        assert forall|j: int|
            0 <= j < x.len() && #[trigger] x.subrange(0, j) =~= y.subrange(0, j) implies x[j] <= y[j] by {
            assert(x.subrange(0, HASH_DIGITS as int)[j] == y.subrange(0, HASH_DIGITS as int)[j]);
        }
    }
    true
}

/// The prefix's digits padded to a whole hash with `pad`, decoded.
fn padded_hash(digits: &[u8], pad: u8) -> (r: Result<[u8; 32], hex::FromHexError>)
    requires
        digits@.len() <= HASH_DIGITS,
        is_hex_digit(pad),
    ensures
        r is Ok <==> all_hex_digits(digits@),
        r matches Ok(h) ==> nibbles(h@) == Seq::new(
            HASH_DIGITS as nat,
            |i: int| if i < digits@.len() { hex_value(digits@[i]) } else { hex_value(pad) },
        ),
{
    let mut text: Vec<u8> = Vec::new();
    let mut i: usize = 0;
    while i < HASH_DIGITS
        invariant
            i <= HASH_DIGITS,
            digits@.len() <= HASH_DIGITS,
            text@.len() == i,
            forall|j: int|
                0 <= j < i ==> #[trigger] text@[j] == if j < digits@.len() {
                    digits@[j]
                } else {
                    pad
                },
        decreases HASH_DIGITS - i,
    {
        if i < digits.len() {
            text.push(digits[i]);
        } else {
            text.push(pad);
        }
        i = i + 1;
    }
    proof {
        if all_hex_digits(digits@) {
            assert(all_hex_digits(text@));
        } else {
            let j = choose|j: int| 0 <= j < digits@.len() && !is_hex_digit(#[trigger] digits@[j]);
            assert(text@[j] == digits@[j]);
        }
    }
    match decode_hex(text.as_slice()) {
        Ok(bytes) => {
            let mut h: [u8; 32] = [0u8; 32];
            let mut k: usize = 0;
            while k < HASH_LEN
                invariant
                    k <= HASH_LEN,
                    bytes@.len() == HASH_LEN,
                    forall|j: int| 0 <= j < k ==> h@[j] == bytes@[j],
                decreases HASH_LEN - k,
            {
                h[k] = bytes[k];
                k = k + 1;
            }
            proof {
                let want = Seq::new(
                    HASH_DIGITS as nat,
                    |i: int| if i < digits@.len() { hex_value(digits@[i]) } else { hex_value(pad) },
                );
                assert forall|i: int| 0 <= i < HASH_DIGITS implies #[trigger] nibbles(h@)[i] == want[i] by {
                    let j = i / 2;
                    let hi = hex_value(text@[2 * j]);
                    let lo = hex_value(text@[2 * j + 1]);
                    assert(is_hex_digit(text@[2 * j]) && is_hex_digit(text@[2 * j + 1]));
                    assert(0 <= hi < 16 && 0 <= lo < 16);
                    assert(h@[j] == (hi * 16 + lo) as u8);
                    assert((hi * 16 + lo) / 16 == hi && (hi * 16 + lo) % 16 == lo) by (nonlinear_arith)
                        requires
                            0 <= hi < 16,
                            0 <= lo < 16,
                    ;
                }
                assert(nibbles(h@) =~= want);
            }
            Ok(h)
        },
        Err(e) => Err(e),
    }
}

impl DocHash {
    /// The hash that 64 hexadecimal digits (of either case) spell.
    pub fn from_hex(text: &str) -> (r: Option<DocHash>)
        ensures
            r is Some <==> (encode_utf8(text@).len() == HASH_DIGITS && all_hex_digits(
                encode_utf8(text@),
            )),
            r matches Some(h) ==> prefix_matches(encode_utf8(text@), h.0@),
    {
        let digits = text.as_bytes();
        if digits.len() != HASH_DIGITS {
            return None;
        }
        match padded_hash(digits, 48u8) {
            Ok(h) => {
                proof {
                    let d = digits@;
                    assert forall|i: int| 0 <= i < d.len() implies hex_value(#[trigger] d[i]) == nibble(
                        h@,
                        i,
                    ) by {
                        assert(nibbles(h@)[i] == hex_value(d[i]));
                    }
                }
                Some(DocHash(h))
            },
            Err(_) => None,
        }
    }
}

/// The lowest and the highest hash whose hexadecimal spelling begins with
/// `digits`, or the error of decoding them.
pub fn prefix_range(digits: &[u8]) -> (r: Result<([u8; 32], [u8; 32]), hex::FromHexError>)
    requires
        digits@.len() <= HASH_DIGITS,
    ensures
        r is Ok <==> all_hex_digits(digits@),
        r matches Ok(p) ==> nibbles(p.0@) == low_nibbles(digits@) && nibbles(p.1@) == high_nibbles(
            digits@,
        ),
{
    let lo = padded_hash(digits, 48u8);
    let hi = padded_hash(digits, 102u8);
    match (lo, hi) {
        (Ok(lo), Ok(hi)) => {
            proof {
                assert(nibbles(lo@) =~= low_nibbles(digits@));
                assert(nibbles(hi@) =~= high_nibbles(digits@));
            }
            Ok((lo, hi))
        },
        (Err(e), _) => Err(e),
        (_, Err(e)) => Err(e),
    }
}

} // verus!
