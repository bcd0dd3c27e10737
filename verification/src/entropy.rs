//! Two kinds of randomness: the operating system's for production, a
//! seeded ChaCha12 stream (rand's `StdRng`) for tests and replay. A seeded
//! source is its seed and how much of its stream it has used, so the same
//! seed gives the same bytes again. Event ids are ULIDs: 48 bits of time
//! over 80 bits from the source.
use vstd::prelude::*;

verus! {

/// Where random bytes come from: the operating system, or the stream of
/// `StdRng::from_seed(seed)` of which the first `words` 32-bit words are
/// used.
pub enum Entropy {
    Os,
    Seeded { seed: [u8; 32], words: u64 },
}

/// 2^48: the time part of a ULID holds the low 48 bits of the time.
pub open spec fn time_span() -> nat {
    0x1_0000_0000_0000
}

/// 2^80: the random part of a ULID holds 80 bits.
pub open spec fn random_span() -> nat {
    0x1_0000_0000_0000_0000_0000
}

/// The canonical text of a ULID value (26 Crockford base32 characters).
pub uninterp spec fn ulid_text(u: u128) -> Seq<char>;

/// The `len` bytes that `StdRng::from_seed(seed)` fills after it has first
/// filled `skip` bytes: a function of the seed and the two lengths.
pub uninterp spec fn chacha_after(seed: Seq<u8>, skip: nat, len: nat) -> Seq<u8>;

/// A fresh `StdRng::from_seed(seed)` fills `skip` bytes, then `dest`.
#[verifier::external_body]
fn seeded_fill(seed: [u8; 32], skip: usize, dest: &mut [u8])
    ensures
        final(dest)@ == chacha_after(seed@, skip as nat, old(dest)@.len()),
        final(dest)@.len() == old(dest)@.len(),
{
    let mut rng = <rand::rngs::StdRng as rand::SeedableRng>::from_seed(seed);
    let mut skipped = vec![0u8; skip];
    rand::RngCore::fill_bytes(&mut rng, &mut skipped);
    rand::RngCore::fill_bytes(&mut rng, dest)
}

/// `OsRng::fill_bytes`: random bytes from the operating system. Nothing
/// is promised of the bytes.
#[verifier::external_body]
fn os_fill(dest: &mut [u8])
    ensures
        final(dest)@.len() == old(dest)@.len(),
{
    rand::RngCore::fill_bytes(&mut rand::rngs::OsRng, dest)
}

/// `ulid::Ulid::from_parts`, as its value: the low 48 bits of the time
/// above the low 80 bits of the random part.
#[verifier::external_body]
fn ulid_from_parts(timestamp_ms: u64, random: u128) -> (r: u128)
    ensures
        r == (timestamp_ms as nat % time_span()) * random_span() + random as nat % random_span(),
{
    ulid::Ulid::from_parts(timestamp_ms, random).0
}

/// `Ulid::to_string`: the canonical text of a ULID, a function of its value.
#[verifier::external_body]
fn ulid_string(u: u128) -> (r: String)
    ensures
        r@ == ulid_text(u),
{
    ulid::Ulid(u).to_string()
}

/// The big-endian value of a byte string.
pub open spec fn be_value(b: Seq<u8>) -> nat
    decreases b.len(),
{
    if b.len() == 0 { 0 } else { be_value(b.drop_last()) * 256 + b.last() as nat }
}

/// 256 to the power `n`.
pub open spec fn byte_span(n: nat) -> nat
    decreases n,
{
    if n == 0 { 1 } else { 256 * byte_span((n - 1) as nat) }
}

/// Sixteen random bytes made an RFC 4122 version 4 uuid: the high nibble
/// of byte 6 set to 4, the top two bits of byte 8 to `10`.
pub open spec fn v4_bytes(b: Seq<u8>) -> Seq<u8> {
    b.update(6, (b[6] & 0x0f) | 0x40).update(8, (b[8] & 0x3f) | 0x80)
}

/// `uuid::Builder::from_random_bytes(..).into_uuid().as_u128()`: the bytes
/// with the version and variant bits set, read big-endian.
#[verifier::external_body]
fn uuid_from_random(bytes: [u8; 16]) -> (r: u128)
    ensures
        r == be_value(v4_bytes(bytes@)),
{
    uuid::Builder::from_random_bytes(bytes).into_uuid().as_u128()
}

/// The bytes a seeded source skips before its next fill: its used words.
pub open spec fn skip_of(words: u64) -> nat {
    if 4 * words <= usize::MAX { (4 * words) as nat } else { usize::MAX as nat }
}

/// The used words after a fill of `len` bytes: a fill takes the next whole
/// 32-bit words of the stream, `len / 4` rounded up.
pub open spec fn words_after(words: u64, len: nat) -> u64 {
    if words + (len + 3) / 4 <= u64::MAX { (words + (len + 3) / 4) as u64 } else { u64::MAX }
}

/// The next `len` bytes of a seeded source, and the source after them.
pub open spec fn seeded_next(seed: [u8; 32], words: u64, len: nat) -> (Seq<u8>, Entropy) {
    (chacha_after(seed@, skip_of(words), len), Entropy::Seeded { seed, words: words_after(words, len) })
}

/// A ULID's value: the low 48 bits of the time above the big-endian value
/// of ten random bytes.
pub open spec fn ulid_value(now_ms: u64, b: Seq<u8>) -> nat {
    (now_ms as nat % time_span()) * random_span() + be_value(b)
}

proof fn lemma_be_value_bound(b: Seq<u8>)
    ensures
        be_value(b) < byte_span(b.len()),
    decreases b.len(),
{
    if b.len() > 0 {
        lemma_be_value_bound(b.drop_last());
        let v = be_value(b.drop_last());
        let s = byte_span(b.drop_last().len());
        let x = b.last() as nat;
        assert(v * 256 + x < 256 * s) by (nonlinear_arith)
            requires
                v < s,
                x < 256,
        ;
    }
}

proof fn lemma_byte_span_le(n: nat, m: nat)
    requires
        n <= m,
    ensures
        byte_span(n) <= byte_span(m),
    decreases m - n,
{
    if n < m {
        lemma_byte_span_le(n, (m - 1) as nat);
    }
}

/// The ULID of ten random bytes at `now_ms`.
pub fn ulid_of(now_ms: u64, bytes: [u8; 10]) -> (r: u128)
    ensures
        r == ulid_value(now_ms, bytes@),
{
    let mut rnd: u128 = 0;
    let mut i: usize = 0;
    while i < 10
        invariant
            i <= 10,
            rnd == be_value(bytes@.subrange(0, i as int)),
            rnd < byte_span(i as nat),
        decreases 10 - i,
    {
        proof {
            assert(bytes@.subrange(0, i + 1).drop_last() =~= bytes@.subrange(0, i as int));
            lemma_byte_span_le((i + 1) as nat, 10);
            reveal_with_fuel(byte_span, 11);
            assert(byte_span(10) == random_span());
        }
        let b = bytes[i];
        proof {
            let s = byte_span(i as nat);
            assert(rnd * 256 + b < 256 * s) by (nonlinear_arith)
                requires
                    rnd < s,
                    b < 256,
            ;
            assert(256 * s == byte_span((i + 1) as nat));
        }
        rnd = rnd * 256 + b as u128;
        i = i + 1;
    }
    proof {
        assert(bytes@.subrange(0, 10) =~= bytes@);
        reveal_with_fuel(byte_span, 11);
        assert(byte_span(10) == random_span());
    }
    ulid_from_parts(now_ms, rnd)
}

impl Entropy {
    pub fn os() -> (r: Self)
        ensures
            r is Os,
    {
        Entropy::Os
    }

    /// The stream of `StdRng::from_seed(seed)`, nothing used yet.
    pub fn seeded(seed: [u8; 32]) -> (r: Self)
        ensures
            r == (Entropy::Seeded { seed, words: 0 }),
    {
        Entropy::Seeded { seed, words: 0 }
    }

    /// Fills `dest` from this source: from the operating system, or with
    /// the next bytes of the seeded stream, which the source then counts as
    /// used.
    pub fn fill(&mut self, dest: &mut [u8])
        ensures
            final(dest)@.len() == old(dest)@.len(),
            *old(self) is Os ==> *final(self) is Os,
            match *old(self) {
                Entropy::Seeded { seed, words } => (final(dest)@, *final(self)) == seeded_next(seed, words, old(dest)@.len()),
                Entropy::Os => true,
            },
    {
        match *self {
            Entropy::Os => {
                os_fill(dest);
            },
            Entropy::Seeded { seed, words } => {
                let skip: usize = if words <= (usize::MAX / 4) as u64 { (words * 4) as usize } else { usize::MAX };
                seeded_fill(seed, skip, dest);
                let len: usize = dest.len();
                let step: u64 = (len / 4) as u64 + if len % 4 == 0 { 0u64 } else { 1u64 };
                assert(step == (len + 3) / 4);
                let next: u64 = if words <= u64::MAX - step { words + step } else { u64::MAX };
                *self = Entropy::Seeded { seed, words: next };
            },
        }
    }

    /// A ULID value: 48 bits of `now_ms` above the big-endian value of ten
    /// bytes from this source; for a seeded source, its next ten bytes.
    pub fn ulid(&mut self, now_ms: u64) -> (r: u128)
        ensures
            *old(self) is Os ==> *final(self) is Os && exists|b: Seq<u8>| b.len() == 10 && r == #[trigger] ulid_value(now_ms, b),
            match *old(self) {
                Entropy::Seeded { seed, words } => r == ulid_value(now_ms, seeded_next(seed, words, 10).0)
                    && *final(self) == seeded_next(seed, words, 10).1,
                Entropy::Os => true,
            },
    {
        let mut bytes: [u8; 10] = [0u8; 10];
        self.fill(&mut bytes);
        ulid_of(now_ms, bytes)
    }

    /// A fresh version 4 uuid from sixteen bytes of this source; for a
    /// seeded source, its next sixteen bytes.
    pub fn uuid_v4(&mut self) -> (r: u128)
        ensures
            *old(self) is Os ==> *final(self) is Os && exists|b: Seq<u8>| b.len() == 16 && r == #[trigger] be_value(v4_bytes(b)),
            match *old(self) {
                Entropy::Seeded { seed, words } => r == be_value(v4_bytes(seeded_next(seed, words, 16).0))
                    && *final(self) == seeded_next(seed, words, 16).1,
                Entropy::Os => true,
            },
    {
        let mut bytes: [u8; 16] = [0u8; 16];
        self.fill(&mut bytes);
        uuid_from_random(bytes)
    }

    /// The id of a new tape event: the text of a fresh ULID at `now_ms`.
    pub fn event_id(&mut self, now_ms: u64) -> (r: String)
        ensures
            *old(self) is Os ==> *final(self) is Os && exists|b: Seq<u8>| b.len() == 10 && r@ == #[trigger] ulid_text(ulid_value(now_ms, b) as u128),
            match *old(self) {
                Entropy::Seeded { seed, words } => r@ == ulid_text(ulid_value(now_ms, seeded_next(seed, words, 10).0) as u128)
                    && *final(self) == seeded_next(seed, words, 10).1,
                Entropy::Os => true,
            },
    {
        let ghost was_os = *self is Os;
        let u = self.ulid(now_ms);
        proof {
            if was_os {
                let b = choose|b: Seq<u8>| b.len() == 10 && u == #[trigger] ulid_value(now_ms, b);
                assert(ulid_value(now_ms, b) as u128 == u);
            }
        }
        ulid_string(u)
    }
}

} // verus!
