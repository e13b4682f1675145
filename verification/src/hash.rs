use vstd::prelude::*;

use crate::bytes::push_bytes;

verus! {

/// The fixed 64-symbol digest alphabet: `0-9`, `A-Z`, `a-z`, `@`, `+`.
pub open spec fn alphabet_sym(i: int) -> u8 {
    if 0 <= i < 10 {
        (48 + i) as u8  // '0'..='9'
    } else if i < 36 {
        (65 + (i - 10)) as u8  // 'A'..='Z'
    } else if i < 62 {
        (97 + (i - 36)) as u8  // 'a'..='z'
    } else if i == 62 {
        64u8  // '@'
    } else {
        43u8  // '+'
    }
}

pub open spec fn alphabet() -> Seq<u8> {
    Seq::new(64, |i: int| alphabet_sym(i))
}

/// The alphabet as a byte vector, for handing to the encoder.
pub fn alphabet_bytes() -> (r: Vec<u8>)
    ensures
        r@ == alphabet(),
{
    let mut r: Vec<u8> = Vec::new();
    let mut i: usize = 0;
    while i < 64
        invariant
            i <= 64,
            r@.len() == i,
            forall|j: int| 0 <= j < i ==> r@[j] == alphabet_sym(j),
        decreases 64 - i,
    {
        let c: u8 = if i < 10 {
            48 + (i as u8)
        } else if i < 36 {
            65 + (i as u8 - 10)
        } else if i < 62 {
            97 + (i as u8 - 36)
        } else if i == 62 {
            64
        } else {
            43
        };
        r.push(c);
        i = i + 1;
    }
    proof {
        assert(r@ =~= alphabet());
    }
    r
}

/// The 6-bit symbol indexes of the base-64 encoding of `s`, most significant
/// bits first, the final partial group padded with zero bits.
pub open spec fn sextets(s: Seq<u8>) -> Seq<u8>
    decreases s.len(),
{
    if s.len() >= 3 {
        seq![
            s[0] >> 2,
            ((s[0] & 3) << 4) | (s[1] >> 4),
            ((s[1] & 15) << 2) | (s[2] >> 6),
            s[2] & 63,
        ] + sextets(s.skip(3))
    } else if s.len() == 2 {
        seq![s[0] >> 2, ((s[0] & 3) << 4) | (s[1] >> 4), (s[1] & 15) << 2]
    } else if s.len() == 1 {
        seq![s[0] >> 2, (s[0] & 3) << 4]
    } else {
        Seq::empty()
    }
}

/// Base-64 encoding of `s` under the fixed alphabet, without padding.
pub open spec fn b64_of(s: Seq<u8>) -> Seq<u8> {
    sextets(s).map(|i: int, v: u8| alphabet()[v as int])
}

pub proof fn lemma_sextets_len(s: Seq<u8>)
    ensures
        sextets(s).len() == (8 * s.len() + 5) / 6,
    decreases s.len(),
{
    if s.len() >= 3 {
        lemma_sextets_len(s.skip(3));
    }
}

pub proof fn lemma_sextets_bound(s: Seq<u8>)
    ensures
        forall|i: int| 0 <= i < sextets(s).len() ==> sextets(s)[i] < 64,
    decreases s.len(),
{
    assert(forall|x: u8| x >> 2 < 64) by (bit_vector);
    assert(forall|x: u8, y: u8| ((x & 3) << 4) | (y >> 4) < 64) by (bit_vector);
    assert(forall|x: u8, y: u8| ((x & 15) << 2) | (y >> 6) < 64) by (bit_vector);
    assert(forall|x: u8| x & 63 < 64) by (bit_vector);
    assert(forall|x: u8| (x & 15) << 2 < 64) by (bit_vector);
    assert(forall|x: u8| (x & 3) << 4 < 64) by (bit_vector);
    if s.len() >= 3 {
        lemma_sextets_bound(s.skip(3));
        assert forall|i: int| 0 <= i < sextets(s).len() implies sextets(s)[i] < 64 by {
            if i >= 4 {
                assert(sextets(s)[i] == sextets(s.skip(3))[i - 4]);
            }
        }
    }
}

/// The SHA3-256 digest of a byte string; what the value is, only the hash
/// implementation knows.
pub uninterp spec fn sha3_of(data: Seq<u8>) -> Seq<u8>;

/// Relies on sha3::Sha3_256 (through the Digest trait): SHA3-256 is a pure
/// function of the input bytes and always returns a 32-byte digest.
#[verifier::external_body]
fn sha3_digest(data: &[u8]) -> (r: Vec<u8>)
    ensures
        r@ == sha3_of(data@),
        r@.len() == 32,
{
    <sha3::Sha3_256 as sha3::Digest>::digest(data).to_vec()
}

/// Relies on data_encoding::Specification and Encoding::encode: a 64-symbol
/// alphabet of distinct ASCII characters yields a valid encoding, and encode
/// produces the base-64 encoding of the input, most significant bits first,
/// without padding.
#[verifier::external_body]
fn encode_with(symbols: &[u8], data: &[u8]) -> (r: Vec<u8>)
    requires
        symbols@ == alphabet(),
    ensures
        r@ == b64_of(data@),
{
    let mut enc_spec = data_encoding::Specification::new();
    enc_spec.symbols.push_str(std::str::from_utf8(symbols).unwrap());
    enc_spec.encoding().unwrap().encode(data).into_bytes()
}

/// The two-segment textual form of a 32-byte digest: the first two encoded
/// symbols, a `/`, then the remaining 41.
pub open spec fn digest_str_of(h: Seq<u8>) -> Seq<u8> {
    if b64_of(h).len() >= 2 {
        b64_of(h).take(2) + seq![47u8] + b64_of(h).skip(2)
    } else {
        b64_of(h)
    }
}

/// The digest string of a byte stream.
pub open spec fn digest_of(data: Seq<u8>) -> Seq<u8> {
    digest_str_of(sha3_of(data))
}

/// Shape of every digest string: 44 bytes, a `/` in third position, every
/// other byte a symbol of the alphabet.
pub open spec fn is_digest(s: Seq<u8>) -> bool {
    &&& s.len() == 44
    &&& s[2] == 47u8
    &&& forall|i: int| 0 <= i < 44 && i != 2 ==> alphabet().contains(#[trigger] s[i])
}

/// Digest length and shape: the textual form of any 32-byte digest is two
/// alphabet symbols, a `/`, and 41 more alphabet symbols.
pub proof fn lemma_digest_shape(h: Seq<u8>)
    requires
        h.len() == 32,
    ensures
        is_digest(digest_str_of(h)),
{
    lemma_sextets_len(h);
    lemma_sextets_bound(h);
    let e = b64_of(h);
    let d = digest_str_of(h);
    assert(e.len() == 43);
    assert(d.len() == 44);
    assert forall|i: int| 0 <= i < 44 && i != 2 implies alphabet().contains(#[trigger] d[i]) by {
        let j = if i < 2 {
            i
        } else {
            i - 1
        };
        assert(d[i] == e[j]);
        assert(e[j] == alphabet()[sextets(h)[j] as int]);
        assert(alphabet()[sextets(h)[j] as int] == alphabet_sym(sextets(h)[j] as int));
    }
}

/// Hash determinism: the digest is a function of the byte stream alone.
pub proof fn lemma_digest_deterministic(a: Seq<u8>, b: Seq<u8>)
    requires
        a == b,
    ensures
        digest_of(a) == digest_of(b),
{
}

/// Chunk boundaries do not matter: accumulating `x` then `y` feeds the same
/// stream as accumulating `x + y` at once.
pub proof fn lemma_chunks_concat(prefix: Seq<u8>, x: Seq<u8>, y: Seq<u8>)
    ensures
        (prefix + x) + y == prefix + (x + y),
        digest_of((prefix + x) + y) == digest_of(prefix + (x + y)),
{
    assert((prefix + x) + y =~= prefix + (x + y));
}

/// Incremental hasher: accumulates a byte stream and renders its digest.
#[derive(Clone)]
pub struct Hasher {
    data: Vec<u8>,
}

impl View for Hasher {
    type V = Seq<u8>;

    closed spec fn view(&self) -> Seq<u8> {
        self.data@
    }
}

impl Hasher {
    /// A fresh hasher that has seen no bytes.
    pub fn new() -> (r: Self)
        ensures
            r@ == Seq::<u8>::empty(),
    {
        Hasher { data: Vec::new() }
    }

    /// Accumulates `data` at the end of the stream seen so far.
    pub fn update(&mut self, data: &[u8])
        ensures
            final(self)@ == old(self)@ + data@,
    {
        push_bytes(&mut self.data, data);
    }

    /// Consumes the hasher and renders the digest string of the accumulated
    /// stream.
    pub fn finalize(self) -> (r: Vec<u8>)
        ensures
            r@ == digest_of(self@),
            is_digest(r@),
    {
        let h = sha3_digest(self.data.as_slice());
        let alph = alphabet_bytes();
        let e = encode_with(alph.as_slice(), h.as_slice());
        proof {
            lemma_sextets_len(h@);
            lemma_digest_shape(h@);
        }
        let mut r: Vec<u8> = Vec::new();
        r.push(e[0]);
        r.push(e[1]);
        r.push(47u8);
        let mut i: usize = 2;
        while i < e.len()
            invariant
                2 <= i <= e@.len(),
                e@.len() == 43,
                r@ == e@.take(2) + seq![47u8] + e@.subrange(2, i as int),
            decreases e@.len() - i,
        {
            r.push(e[i]);
            proof {
                assert(e@.take(2) + seq![47u8] + e@.subrange(2, i as int) + seq![e@[i as int]]
                    =~= e@.take(2) + seq![47u8] + e@.subrange(2, i + 1));
            }
            i = i + 1;
        }
        proof {
            assert(e@.subrange(2, 43) =~= e@.skip(2));
            assert(r@ =~= digest_str_of(h@));
        }
        r
    }
}

/// The digest string of a whole byte string in one call.
pub fn hash(data: &[u8]) -> (r: Vec<u8>)
    ensures
        r@ == digest_of(data@),
        is_digest(r@),
{
    let mut hasher = Hasher::new();
    hasher.update(data);
    proof {
        assert(Seq::<u8>::empty() + data@ =~= data@);
    }
    hasher.finalize()
}


/// No digest string contains a newline: every byte is an alphabet symbol or
/// the slash.
pub proof fn lemma_digest_no_newline(h: Seq<u8>)
    ensures
        !digest_str_of(h).contains(10u8),
{
    lemma_sextets_bound(h);
    let d = digest_str_of(h);
    let e = b64_of(h);
    assert forall|k: int| 0 <= k < d.len() implies d[k] != 10u8 by {
        if d[k] != 47u8 {
            let j = if e.len() < 2 || k < 2 {
                k
            } else {
                k - 1
            };
            assert(0 <= j < e.len());
            assert(d[k] == e[j]);
            assert(e[j] == alphabet()[sextets(h)[j] as int]);
            assert(sextets(h)[j] < 64);
            assert(alphabet()[sextets(h)[j] as int] == alphabet_sym(sextets(h)[j] as int));
            assert(alphabet_sym(sextets(h)[j] as int) >= 43);
        }
    }
    if d.contains(10u8) {
        let k = choose|k: int| 0 <= k < d.len() && d[k] == 10u8;
    }
}


} // verus!
