//! Object ids: SHA-256 of a typed object payload.
use vstd::prelude::*;

use crate::text::{chars_of, decimal, hex_char, hex_digit, hex_value, hex_value_of, push_decimal, string_of};

verus! {

/// The SHA-256 digest of a byte string.
pub uninterp spec fn sha256(data: Seq<u8>) -> Seq<u8>;

/// Calls `sha2::Sha256::digest`; claimed: the digest is a function of the
/// bytes alone, named `sha256`, 32 bytes long.
#[verifier::external_body]
pub(crate) fn sha256_digest(data: &[u8]) -> (r: [u8; 32])
    ensures
        r@ == sha256(data@),
{
    <sha2::Sha256 as sha2::Digest>::digest(data).into()
}

/// A typed content address.
#[derive(Debug, Clone, Copy, PartialEq, Eq, Hash)]
pub struct ObjectId(pub [u8; 32]);

/// Lowercase hex of bytes, two digits per byte.
pub open spec fn hex_of(bytes: Seq<u8>) -> Seq<char>
    decreases bytes.len(),
{
    if bytes.len() == 0 {
        Seq::empty()
    } else {
        hex_of(bytes.drop_last()) + seq![hex_char(bytes.last() as nat / 16), hex_char(bytes.last() as nat % 16)]
    }
}

/// Lowercase hex of `bytes`.
pub fn hex(bytes: &[u8]) -> (r: String)
    ensures
        r@ == hex_of(bytes@),
        r@.len() == 2 * bytes@.len(),
{
    let mut out: Vec<char> = Vec::new();
    let mut i: usize = 0;
    while i < bytes.len()
        invariant
            i <= bytes.len(),
            out@ == hex_of(bytes@.subrange(0, i as int)),
            out@.len() == 2 * i,
        decreases bytes.len() - i,
    {
        let b = bytes[i];
        out.push(hex_digit(b / 16));
        out.push(hex_digit(b % 16));
        assert(bytes@.subrange(0, i + 1).drop_last() =~= bytes@.subrange(0, i as int));
        assert(out@ =~= hex_of(bytes@.subrange(0, i + 1)));
        i = i + 1;
    }
    assert(bytes@.subrange(0, bytes.len() as int) =~= bytes@);
    string_of(out.as_slice())
}

/// The ASCII bytes of a run of ASCII characters.
pub open spec fn ascii_bytes(cs: Seq<char>) -> Seq<u8> {
    cs.map_values(|c: char| c as u8)
}

/// What is hashed for an object: `<kind> <len>\0<payload>`.
pub open spec fn payload_preimage(kind: Seq<char>, payload: Seq<u8>) -> Seq<u8> {
    crate::text::utf8_bytes(kind) + seq![32u8] + ascii_bytes(decimal(payload.len())) + seq![0u8] + payload
}

/// The value of a two-character hex pair as `u8::from_str_radix(_, 16)`
/// reads it: two hex digits, or `+` and one hex digit.
pub open spec fn pair_value(a: char, b: char) -> Option<u8> {
    match (hex_value(a), hex_value(b)) {
        (Some(x), Some(y)) => Some((x * 16 + y) as u8),
        (None, Some(y)) => if a == '+' { Some(y as u8) } else { None },
        _ => None,
    }
}

/// Every pair of a 64-character text reads as a byte.
pub open spec fn pairs_ok(s: Seq<char>) -> bool {
    forall|i: int| 0 <= i < 32 ==> (#[trigger] pair_value(s[2 * i], s[2 * i + 1])) is Some
}

pub open spec fn object_id_text(s: Seq<char>) -> Result<Seq<u8>, Seq<char>> {
    if crate::text::utf8_bytes(s).len() as usize != 64 {
        Err("object id must be 64 hex chars"@)
    } else if s.len() != 64 || !pairs_ok(s) {
        Err("invalid hex"@)
    } else {
        Ok(Seq::new(32, |i: int| pair_value(s[2 * i], s[2 * i + 1])->0))
    }
}

fn pair_value_exec(a: char, b: char) -> (r: Option<u8>)
    ensures
        r == pair_value(a, b),
{
    match (hex_value_of(a), hex_value_of(b)) {
        (Some(x), Some(y)) => Some(x * 16 + y),
        (None, Some(y)) => if a == '+' { Some(y) } else { None },
        _ => None,
    }
}

impl ObjectId {
    /// The id of an object: the SHA-256 of `<kind> <len>\0<payload>`.
    pub fn from_payload(kind: &str, payload: &[u8]) -> (r: Self)
        ensures
            r.0@ == sha256(payload_preimage(kind@, payload@)),
    {
        let mut pre: Vec<u8> = Vec::new();
        let kb = kind.as_bytes();
        let mut i: usize = 0;
        while i < kb.len()
            invariant
                i <= kb.len(),
                pre@ == kb@.subrange(0, i as int),
            decreases kb.len() - i,
        {
            pre.push(kb[i]);
            assert(pre@ =~= kb@.subrange(0, i + 1));
            i = i + 1;
        }
        assert(kb@.subrange(0, kb.len() as int) =~= kb@);
        pre.push(32u8);
        let mut digits: Vec<char> = Vec::new();
        push_decimal(payload.len() as u64, &mut digits);
        assert(digits@ =~= decimal(payload@.len()));
        let ghost base = pre@;
        let mut j: usize = 0;
        while j < digits.len()
            invariant
                j <= digits.len(),
                pre@ == base + ascii_bytes(digits@.subrange(0, j as int)),
            decreases digits.len() - j,
        {
            pre.push(digits[j] as u8);
            assert(ascii_bytes(digits@.subrange(0, j + 1)) =~= ascii_bytes(digits@.subrange(0, j as int)).push(digits@[j as int] as u8));
            j = j + 1;
        }
        assert(digits@.subrange(0, digits.len() as int) =~= digits@);
        pre.push(0u8);
        let ghost base2 = pre@;
        let mut k: usize = 0;
        while k < payload.len()
            invariant
                k <= payload.len(),
                pre@ == base2 + payload@.subrange(0, k as int),
            decreases payload.len() - k,
        {
            pre.push(payload[k]);
            assert(pre@ =~= base2 + payload@.subrange(0, k + 1));
            k = k + 1;
        }
        assert(payload@.subrange(0, payload.len() as int) =~= payload@);
        assert(pre@ =~= payload_preimage(kind@, payload@));
        ObjectId(sha256_digest(pre.as_slice()))
    }

    /// Lowercase hex of the id.
    pub fn hex(&self) -> (r: String)
        ensures
            r@ == hex_of(self.0@),
            r@.len() == 64,
    {
        hex(&self.0)
    }

    /// Reads a 64-character hex text (see `object_id_text`).
    pub fn from_hex(s: &str) -> (r: Result<Self, String>)
        ensures
            match r {
                Ok(id) => object_id_text(s@) == Ok::<Seq<u8>, Seq<char>>(id.0@),
                Err(e) => object_id_text(s@) == Err::<Seq<u8>, Seq<char>>(e@),
            },
    {
        if s.len() != 64 {
            return Err("object id must be 64 hex chars".to_owned());
        }
        let cs = chars_of(s);
        if cs.len() != 64 {
            return Err("invalid hex".to_owned());
        }
        let mut id = [0u8; 32];
        let mut i: usize = 0;
        while i < 32
            invariant
                i <= 32,
                cs@ == s@,
                cs@.len() == 64,
                crate::text::utf8_bytes(s@).len() as usize == 64,
                forall|k: int| 0 <= k < i ==> (#[trigger] pair_value(cs@[2 * k], cs@[2 * k + 1])) == Some(id@[k]),
            decreases 32 - i,
        {
            match pair_value_exec(cs[2 * i], cs[2 * i + 1]) {
                Some(b) => {
                    id[i] = b;
                },
                None => {
                    assert(!pairs_ok(s@)) by {
                        assert(pair_value(s@[2 * i as int], s@[2 * i as int + 1]) is None);
                    }
                    return Err("invalid hex".to_owned());
                },
            }
            i = i + 1;
        }
        assert(id@ =~= Seq::new(32, |k: int| pair_value(s@[2 * k], s@[2 * k + 1])->0));
        Ok(ObjectId(id))
    }
}


proof fn lemma_hex_of_shape(b: Seq<u8>)
    ensures
        hex_of(b).len() == 2 * b.len(),
        forall|i: int| 0 <= i < b.len() ==> #[trigger] hex_of(b)[2 * i] == hex_char(b[i] as nat / 16)
            && hex_of(b)[2 * i + 1] == hex_char(b[i] as nat % 16),
    decreases b.len(),
{
    if b.len() > 0 {
        let p = b.drop_last();
        lemma_hex_of_shape(p);
        assert forall|i: int| 0 <= i < b.len() implies #[trigger] hex_of(b)[2 * i] == hex_char(b[i] as nat / 16)
            && hex_of(b)[2 * i + 1] == hex_char(b[i] as nat % 16) by {
            if i < p.len() {
                assert(hex_of(p)[2 * i] == hex_char(p[i] as nat / 16));
                assert(b[i] == p[i]);
            }
        }
    }
}

proof fn lemma_hex_char_value(d: nat)
    requires
        d < 16,
    ensures
        hex_value(hex_char(d)) == Some(d),
        '0' <= hex_char(d) <= 'f',
{
}

/// An object id's hex text reads back as the id.
pub proof fn lemma_hex_round_trip(b: Seq<u8>)
    requires
        b.len() == 32,
    ensures
        object_id_text(hex_of(b)) == Ok::<Seq<u8>, Seq<char>>(b),
{
    let h = hex_of(b);
    lemma_hex_of_shape(b);
    assert forall|i: int| 0 <= i < 32 implies #[trigger] pair_value(h[2 * i], h[2 * i + 1]) == Some(b[i]) by {
        let hi = b[i] as nat / 16;
        let lo = b[i] as nat % 16;
        lemma_hex_char_value(hi);
        lemma_hex_char_value(lo);
        assert(h[2 * i] == hex_char(hi));
        assert(h[2 * i + 1] == hex_char(lo));
    }
    assert(vstd::utf8::is_ascii_chars(h)) by {
        assert forall|k: int| 0 <= k < h.len() implies '\0' <= #[trigger] h[k] <= '\u{7f}' by {
            let i = k / 2;
            assert(0 <= i < b.len());
            assert(hex_of(b)[2 * i] == hex_char(b[i] as nat / 16));
            lemma_hex_char_value(b[i] as nat / 16);
            lemma_hex_char_value(b[i] as nat % 16);
            if k % 2 == 0 {
                assert(k == 2 * i);
            } else {
                assert(k == 2 * i + 1);
            }
        }
    }
    vstd::utf8::is_ascii_chars_encode_utf8(h);
    assert(Seq::new(32, |i: int| pair_value(h[2 * i], h[2 * i + 1])->0) =~= b);
}

} // verus!
