use crate::ziparchive::is_ascii_bytes;
use vstd::prelude::*;
use vstd::string::StringSliceAdditionalSpecFns;

verus! {

/// The two textual encodings a digest appears in: snapshot JSON uses the
/// standard base64 alphabet, archive entry names use the URL-safe one.
#[derive(Debug, Clone, Copy, PartialEq, Eq, Structural)]
pub enum Base64Alphabet {
    Standard,
    UrlSafe,
}

/// The ASCII code that a six-bit value encodes to. The alphabets agree
/// everywhere but on the values 62 and 63.
pub open spec fn spec_b64_char(a: Base64Alphabet, v: u8) -> u8 {
    if v < 26 {
        (65 + v as int) as u8  // 'A'..'Z'
    } else if v < 52 {
        (97 + (v - 26) as int) as u8  // 'a'..'z'
    } else if v < 62 {
        (48 + (v - 52) as int) as u8  // '0'..'9'
    } else if v == 62 {
        match a {
            Base64Alphabet::Standard => 43,  // '+'
            Base64Alphabet::UrlSafe => 45,  // '-'
        }
    } else {
        match a {
            Base64Alphabet::Standard => 47,  // '/'
            Base64Alphabet::UrlSafe => 95,  // '_'
        }
    }
}

/// Canonical padded base64 of a byte sequence: each group of three bytes
/// becomes four alphabet bytes, and a final group of one or two bytes is
/// padded with `=` (61).
pub open spec fn spec_b64_encode(a: Base64Alphabet, s: Seq<u8>) -> Seq<u8>
    decreases s.len(),
{
    if s.len() == 0 {
        Seq::empty()
    } else if s.len() == 1 {
        seq![
            spec_b64_char(a, s[0] >> 2),
            spec_b64_char(a, (s[0] & 0x03) << 4),
            61u8,
            61u8,
        ]
    } else if s.len() == 2 {
        seq![
            spec_b64_char(a, s[0] >> 2),
            spec_b64_char(a, ((s[0] & 0x03) << 4) | (s[1] >> 4)),
            spec_b64_char(a, (s[1] & 0x0f) << 2),
            61u8,
        ]
    } else {
        seq![
            spec_b64_char(a, s[0] >> 2),
            spec_b64_char(a, ((s[0] & 0x03) << 4) | (s[1] >> 4)),
            spec_b64_char(a, ((s[1] & 0x0f) << 2) | (s[2] >> 6)),
            spec_b64_char(a, s[2] & 0x3f),
        ] + spec_b64_encode(a, s.skip(3))
    }
}

/// Whether a byte sequence is the canonical padded encoding of anything.
pub open spec fn spec_b64_valid(a: Base64Alphabet, s: Seq<u8>) -> bool {
    exists|b: Seq<u8>| spec_b64_encode(a, b) == s
}

/// Whether a byte sequence is the canonical encoding of some 32-byte digest.
pub open spec fn spec_is_b64_digest(a: Base64Alphabet, s: Seq<u8>) -> bool {
    exists|b: Seq<u8>| b.len() == 32 && spec_b64_encode(a, b) == s
}

/// The bytes a canonical encoding denotes; `None` on anything else. By
/// injectivity of the encoding this picks the one sequence that encodes to
/// `s`.
pub open spec fn spec_b64_decode(a: Base64Alphabet, s: Seq<u8>) -> Option<Seq<u8>> {
    if spec_b64_valid(a, s) {
        Some(choose|b: Seq<u8>| spec_b64_encode(a, b) == s)
    } else {
        None
    }
}

/// Alphabet bytes are ASCII and never the padding byte `=`.
proof fn lemma_b64_char_bounds(a: Base64Alphabet, v: u8)
    ensures
        spec_b64_char(a, v) < 128,
        spec_b64_char(a, v) != 61,
{
}

/// On six-bit values the alphabet map has no collisions.
proof fn lemma_b64_char_injective(a: Base64Alphabet, v1: u8, v2: u8)
    requires
        v1 < 64,
        v2 < 64,
        spec_b64_char(a, v1) == spec_b64_char(a, v2),
    ensures
        v1 == v2,
{
}

/// The encoding is four bytes for every started group of three input bytes.
pub proof fn lemma_b64_encode_len(a: Base64Alphabet, s: Seq<u8>)
    ensures
        spec_b64_encode(a, s).len() == 4 * ((s.len() + 2) / 3),
    decreases s.len(),
{
    if s.len() >= 3 {
        lemma_b64_encode_len(a, s.skip(3));
        assert(s.skip(3).len() == s.len() - 3);
        assert((s.len() + 2) / 3 == (s.len() - 1) / 3 + 1) by (nonlinear_arith)
            requires
                s.len() >= 3,
        ;
    }
}

/// Every byte of an encoding is ASCII, so encoded digests can name archive
/// entries.
pub proof fn lemma_b64_encode_ascii(a: Base64Alphabet, s: Seq<u8>)
    ensures
        is_ascii_bytes(spec_b64_encode(a, s)),
    decreases s.len(),
{
    let e = spec_b64_encode(a, s);
    if s.len() == 0 {
    } else if s.len() == 1 || s.len() == 2 {
        assert forall|i: int| 0 <= i < e.len() implies e[i] < 128 by {
            lemma_b64_char_bounds(a, s[0] >> 2);
            lemma_b64_char_bounds(a, (s[0] & 0x03) << 4);
            if s.len() == 2 {
                lemma_b64_char_bounds(a, ((s[0] & 0x03) << 4) | (s[1] >> 4));
                lemma_b64_char_bounds(a, (s[1] & 0x0f) << 2);
            }
        }
    } else {
        lemma_b64_encode_ascii(a, s.skip(3));
        assert forall|i: int| 0 <= i < e.len() implies e[i] < 128 by {
            if i < 4 {
                lemma_b64_char_bounds(a, s[0] >> 2);
                lemma_b64_char_bounds(a, ((s[0] & 0x03) << 4) | (s[1] >> 4));
                lemma_b64_char_bounds(a, ((s[1] & 0x0f) << 2) | (s[2] >> 6));
                lemma_b64_char_bounds(a, s[2] & 0x3f);
            } else {
                assert(e[i] == spec_b64_encode(a, s.skip(3))[i - 4]);
            }
        }
    }
}

/// Two sequences with the same canonical encoding are the same sequence.
pub proof fn lemma_b64_encode_injective(a: Base64Alphabet, b1: Seq<u8>, b2: Seq<u8>)
    requires
        spec_b64_encode(a, b1) == spec_b64_encode(a, b2),
    ensures
        b1 == b2,
    decreases b1.len(),
{
    let e1 = spec_b64_encode(a, b1);
    let e2 = spec_b64_encode(a, b2);
    lemma_b64_encode_len(a, b1);
    lemma_b64_encode_len(a, b2);
    if b1.len() == 0 || b2.len() == 0 {
        assert(b1.len() == 0 && b2.len() == 0) by {
            assert(4 * ((b1.len() + 2) / 3) == 4 * ((b2.len() + 2) / 3));
            if b1.len() > 0 {
                assert((b1.len() + 2) / 3 >= 1);
            }
            if b2.len() > 0 {
                assert((b2.len() + 2) / 3 >= 1);
            }
        }
        assert(b1 =~= b2);
    } else if b1.len() <= 2 && b2.len() >= 3 {
        // A short final group is padded with `=`, a full group is not.
        assert(e1.len() == 4);
        assert((b2.len() + 2) / 3 == 1);
        assert(b2.len() == 3);
        assert(e2 =~= seq![
            spec_b64_char(a, b2[0] >> 2),
            spec_b64_char(a, ((b2[0] & 0x03) << 4) | (b2[1] >> 4)),
            spec_b64_char(a, ((b2[1] & 0x0f) << 2) | (b2[2] >> 6)),
            spec_b64_char(a, b2[2] & 0x3f),
        ]);
        lemma_b64_char_bounds(a, b2[2] & 0x3f);
        assert(e1[3] == 61);
        assert(false);
    } else if b1.len() >= 3 && b2.len() <= 2 {
        lemma_b64_encode_injective(a, b2, b1);
    } else if b1.len() == 1 && b2.len() == 2 {
        lemma_b64_char_bounds(a, (b2[1] & 0x0f) << 2);
        assert(e1[2] == 61 && e2[2] != 61);
        assert(false);
    } else if b1.len() == 2 && b2.len() == 1 {
        lemma_b64_encode_injective(a, b2, b1);
    } else if b1.len() == 1 && b2.len() == 1 {
        let x = b1[0];
        let y = b2[0];
        assert(x >> 2 < 64 && (x & 0x03) << 4 < 64 && y >> 2 < 64 && (y & 0x03) << 4 < 64)
            by (bit_vector);
        lemma_b64_char_injective(a, x >> 2, y >> 2);
        lemma_b64_char_injective(a, (x & 0x03) << 4, (y & 0x03) << 4);
        assert(x >> 2 == y >> 2 && (x & 0x03) << 4 == (y & 0x03) << 4 ==> x == y) by (bit_vector);
        assert(b1 =~= b2);
    } else if b1.len() == 2 && b2.len() == 2 {
        let x0 = b1[0];
        let x1 = b1[1];
        let y0 = b2[0];
        let y1 = b2[1];
        assert(x0 >> 2 < 64 && ((x0 & 0x03) << 4) | (x1 >> 4) < 64 && (x1 & 0x0f) << 2 < 64)
            by (bit_vector);
        assert(y0 >> 2 < 64 && ((y0 & 0x03) << 4) | (y1 >> 4) < 64 && (y1 & 0x0f) << 2 < 64)
            by (bit_vector);
        lemma_b64_char_injective(a, x0 >> 2, y0 >> 2);
        lemma_b64_char_injective(a, ((x0 & 0x03) << 4) | (x1 >> 4), ((y0 & 0x03) << 4) | (y1 >> 4));
        lemma_b64_char_injective(a, (x1 & 0x0f) << 2, (y1 & 0x0f) << 2);
        assert(x0 >> 2 == y0 >> 2 && ((x0 & 0x03) << 4) | (x1 >> 4) == ((y0 & 0x03) << 4) | (y1
            >> 4) && (x1 & 0x0f) << 2 == (y1 & 0x0f) << 2 ==> x0 == y0 && x1 == y1) by (bit_vector);
        assert(b1 =~= b2);
    } else {
        // Both have a full leading group: recover its three bytes, then
        // recurse on the rests.
        let x0 = b1[0];
        let x1 = b1[1];
        let x2 = b1[2];
        let y0 = b2[0];
        let y1 = b2[1];
        let y2 = b2[2];
        let g1 = seq![
            spec_b64_char(a, x0 >> 2),
            spec_b64_char(a, ((x0 & 0x03) << 4) | (x1 >> 4)),
            spec_b64_char(a, ((x1 & 0x0f) << 2) | (x2 >> 6)),
            spec_b64_char(a, x2 & 0x3f),
        ];
        let g2 = seq![
            spec_b64_char(a, y0 >> 2),
            spec_b64_char(a, ((y0 & 0x03) << 4) | (y1 >> 4)),
            spec_b64_char(a, ((y1 & 0x0f) << 2) | (y2 >> 6)),
            spec_b64_char(a, y2 & 0x3f),
        ];
        let r1 = spec_b64_encode(a, b1.skip(3));
        let r2 = spec_b64_encode(a, b2.skip(3));
        assert(e1 == g1 + r1);
        assert(e2 == g2 + r2);
        assert(e1[0] == g1[0] && e1[1] == g1[1] && e1[2] == g1[2] && e1[3] == g1[3]);
        assert(e2[0] == g2[0] && e2[1] == g2[1] && e2[2] == g2[2] && e2[3] == g2[3]);
        assert(x0 >> 2 < 64 && ((x0 & 0x03) << 4) | (x1 >> 4) < 64 && ((x1 & 0x0f) << 2) | (x2
            >> 6) < 64 && x2 & 0x3f < 64) by (bit_vector);
        assert(y0 >> 2 < 64 && ((y0 & 0x03) << 4) | (y1 >> 4) < 64 && ((y1 & 0x0f) << 2) | (y2
            >> 6) < 64 && y2 & 0x3f < 64) by (bit_vector);
        lemma_b64_char_injective(a, x0 >> 2, y0 >> 2);
        lemma_b64_char_injective(a, ((x0 & 0x03) << 4) | (x1 >> 4), ((y0 & 0x03) << 4) | (y1 >> 4));
        lemma_b64_char_injective(a, ((x1 & 0x0f) << 2) | (x2 >> 6), ((y1 & 0x0f) << 2) | (y2 >> 6));
        lemma_b64_char_injective(a, x2 & 0x3f, y2 & 0x3f);
        assert(x0 >> 2 == y0 >> 2 && ((x0 & 0x03) << 4) | (x1 >> 4) == ((y0 & 0x03) << 4) | (y1
            >> 4) && ((x1 & 0x0f) << 2) | (x2 >> 6) == ((y1 & 0x0f) << 2) | (y2 >> 6) && x2 & 0x3f
            == y2 & 0x3f ==> x0 == y0 && x1 == y1 && x2 == y2) by (bit_vector);
        assert(r1 =~= r2) by {
            assert forall|i: int| 0 <= i < r1.len() implies r1[i] == r2[i] by {
                assert(r1[i] == e1[i + 4]);
                assert(r2[i] == e2[i + 4]);
            }
            assert(r1.len() == r2.len());
        }
        lemma_b64_encode_injective(a, b1.skip(3), b2.skip(3));
        assert(b1 =~= b2) by {
            assert(b1.skip(3).len() == b2.skip(3).len());
            assert forall|i: int| 0 <= i < b1.len() implies b1[i] == b2[i] by {
                if i >= 3 {
                    assert(b1[i] == b1.skip(3)[i - 3]);
                    assert(b2[i] == b2.skip(3)[i - 3]);
                }
            }
        }
    }
}

/// Decoding an encoding yields the encoded bytes, in either alphabet.
pub proof fn lemma_b64_roundtrip(a: Base64Alphabet, b: Seq<u8>)
    ensures
        spec_b64_decode(a, spec_b64_encode(a, b)) == Some(b),
{
    let s = spec_b64_encode(a, b);
    assert(spec_b64_valid(a, s)) by {
        assert(spec_b64_encode(a, b) == s);
    }
    let b2 = choose|x: Seq<u8>| spec_b64_encode(a, x) == s;
    lemma_b64_encode_injective(a, b2, b);
}

/// Decoding a standard-alphabet encoding with the URL-safe alphabet gives
/// back the bytes exactly when the two alphabets agree on those bytes, that
/// is, when the two encodings coincide.
pub proof fn lemma_b64_cross_codec(b: Seq<u8>)
    ensures
        spec_b64_decode(Base64Alphabet::UrlSafe, spec_b64_encode(Base64Alphabet::Standard, b))
            == Some(b) <==> spec_b64_encode(Base64Alphabet::Standard, b) == spec_b64_encode(
            Base64Alphabet::UrlSafe,
            b,
        ),
{
    let s = spec_b64_encode(Base64Alphabet::Standard, b);
    if spec_b64_encode(Base64Alphabet::Standard, b) == spec_b64_encode(Base64Alphabet::UrlSafe, b) {
        lemma_b64_roundtrip(Base64Alphabet::UrlSafe, b);
    } else {
        if spec_b64_decode(Base64Alphabet::UrlSafe, s) == Some(b) {
            let c = choose|x: Seq<u8>| spec_b64_encode(Base64Alphabet::UrlSafe, x) == s;
            assert(spec_b64_encode(Base64Alphabet::UrlSafe, c) == s);
            assert(c == b);
            assert(false);
        }
    }
}

/// Relies on base64's `STANDARD` engine: canonical padded encoding over the
/// standard alphabet.
#[verifier::external_body]
fn b64_encode_standard(b: &[u8]) -> (r: Vec<u8>)
    ensures
        r@ == spec_b64_encode(Base64Alphabet::Standard, b@),
{
    base64::Engine::encode(&base64::engine::general_purpose::STANDARD, b).into_bytes()
}

/// Relies on base64's `URL_SAFE` engine: canonical padded encoding over the
/// URL-safe alphabet.
#[verifier::external_body]
fn b64_encode_urlsafe(b: &[u8]) -> (r: Vec<u8>)
    ensures
        r@ == spec_b64_encode(Base64Alphabet::UrlSafe, b@),
{
    base64::Engine::encode(&base64::engine::general_purpose::URL_SAFE, b).into_bytes()
}

/// Relies on base64's `STANDARD` engine: decoding succeeds exactly on
/// canonical padded encodings (the engine requires canonical padding and
/// rejects set trailing bits) and then inverts the encoding.
#[verifier::external_body]
fn b64_decode_standard(s: &[u8]) -> (r: Option<Vec<u8>>)
    ensures
        match r {
            Some(b) => s@ == spec_b64_encode(Base64Alphabet::Standard, b@),
            None => !spec_b64_valid(Base64Alphabet::Standard, s@),
        },
{
    base64::Engine::decode(&base64::engine::general_purpose::STANDARD, s).ok()
}

/// Relies on base64's `URL_SAFE` engine: decoding succeeds exactly on
/// canonical padded encodings and then inverts the encoding.
#[verifier::external_body]
pub(crate) fn b64_decode_urlsafe(s: &[u8]) -> (r: Option<Vec<u8>>)
    ensures
        match r {
            Some(b) => s@ == spec_b64_encode(Base64Alphabet::UrlSafe, b@),
            None => !spec_b64_valid(Base64Alphabet::UrlSafe, s@),
        },
{
    base64::Engine::decode(&base64::engine::general_purpose::URL_SAFE, s).ok()
}

/// A 32-byte content digest. Equality and ordering are byte-wise over the
/// raw bytes; any decoded value of another length is rejected.
#[derive(Debug)]
pub struct BlockIdHash {
    pub hash: Vec<u8>,
}

impl View for BlockIdHash {
    type V = Seq<u8>;

    open spec fn view(&self) -> Seq<u8> {
        self.hash@
    }
}

impl Clone for BlockIdHash {
    fn clone(&self) -> (r: Self)
        ensures
            r@ == self@,
    {
        let hash = self.hash.clone();
        proof {
            assert(hash@ =~= self.hash@);
        }
        BlockIdHash { hash }
    }
}

impl BlockIdHash {
    /// A digest is exactly 32 bytes.
    pub open spec fn wf(&self) -> bool {
        self@.len() == 32
    }

    /// Builds a digest from raw bytes; rejects any length but 32.
    pub fn from_bytes(b: &[u8]) -> (r: Option<BlockIdHash>)
        ensures
            match r {
                Some(h) => h.wf() && h@ == b@ && b@.len() == 32,
                None => b@.len() != 32,
            },
    {
        if b.len() != 32 {
            return None;
        }
        Some(BlockIdHash { hash: vstd::slice::slice_to_vec(b) })
    }

    /// Decodes a digest from base64 bytes in the given alphabet; rejects
    /// anything that is not the canonical encoding of exactly 32 bytes.
    pub fn from_base64_bytes(block_id_bytes: &[u8], alpha: Base64Alphabet) -> (r: Option<
        BlockIdHash,
    >)
        ensures
            match r {
                Some(h) => h.wf() && spec_b64_encode(alpha, h@) == block_id_bytes@,
                None => forall|b: Seq<u8>|
                    b.len() == 32 ==> spec_b64_encode(alpha, b) != block_id_bytes@,
            },
    {
        let decoded = match alpha {
            Base64Alphabet::Standard => b64_decode_standard(block_id_bytes),
            Base64Alphabet::UrlSafe => b64_decode_urlsafe(block_id_bytes),
        };
        match decoded {
            Some(bytes) => {
                if bytes.len() == 32 {
                    Some(BlockIdHash { hash: bytes })
                } else {
                    proof {
                        assert forall|b: Seq<u8>| b.len() == 32 implies spec_b64_encode(alpha, b)
                            != block_id_bytes@ by {
                            if spec_b64_encode(alpha, b) == block_id_bytes@ {
                                lemma_b64_encode_injective(alpha, b, bytes@);
                            }
                        }
                    }
                    None
                }
            },
            None => {
                proof {
                    assert forall|b: Seq<u8>| b.len() == 32 implies spec_b64_encode(alpha, b)
                        != block_id_bytes@ by {
                        if spec_b64_encode(alpha, b) == block_id_bytes@ {
                            assert(spec_b64_valid(alpha, block_id_bytes@));
                        }
                    }
                }
                None
            },
        }
    }

    /// Decodes a digest from a base64 string in the given alphabet.
    pub fn from_base64_config(block_id_str: &str, alpha: Base64Alphabet) -> (r: Option<BlockIdHash>)
        ensures
            match r {
                Some(h) => h.wf() && spec_b64_encode(alpha, h@) == block_id_str.spec_bytes(),
                None => forall|b: Seq<u8>|
                    b.len() == 32 ==> spec_b64_encode(alpha, b) != block_id_str.spec_bytes(),
            },
    {
        Self::from_base64_bytes(block_id_str.as_bytes(), alpha)
    }

    /// Decodes a digest from standard base64.
    pub fn from_base64(block_id_str: &str) -> (r: Option<BlockIdHash>)
        ensures
            match r {
                Some(h) => h.wf() && spec_b64_encode(Base64Alphabet::Standard, h@)
                    == block_id_str.spec_bytes(),
                None => forall|b: Seq<u8>|
                    b.len() == 32 ==> spec_b64_encode(Base64Alphabet::Standard, b)
                        != block_id_str.spec_bytes(),
            },
    {
        Self::from_base64_config(block_id_str, Base64Alphabet::Standard)
    }

    /// Decodes a digest from URL-safe base64.
    pub fn from_base64_urlsafe(block_id_str: &str) -> (r: Option<BlockIdHash>)
        ensures
            match r {
                Some(h) => h.wf() && spec_b64_encode(Base64Alphabet::UrlSafe, h@)
                    == block_id_str.spec_bytes(),
                None => forall|b: Seq<u8>|
                    b.len() == 32 ==> spec_b64_encode(Base64Alphabet::UrlSafe, b)
                        != block_id_str.spec_bytes(),
            },
    {
        Self::from_base64_config(block_id_str, Base64Alphabet::UrlSafe)
    }

    /// Writes the digest's base64 in the given alphabet into a caller-owned
    /// scratch buffer.
    pub fn as_base64_config(&self, alpha: Base64Alphabet, buf: &mut Vec<u8>)
        ensures
            final(buf)@ == spec_b64_encode(alpha, self@),
            is_ascii_bytes(final(buf)@),
    {
        let encoded = match alpha {
            Base64Alphabet::Standard => b64_encode_standard(self.hash.as_slice()),
            Base64Alphabet::UrlSafe => b64_encode_urlsafe(self.hash.as_slice()),
        };
        proof {
            lemma_b64_encode_ascii(alpha, self@);
        }
        *buf = encoded;
    }

    /// Writes the digest's standard base64 into a scratch buffer.
    pub fn as_base64(&self, buf: &mut Vec<u8>)
        ensures
            final(buf)@ == spec_b64_encode(Base64Alphabet::Standard, self@),
            is_ascii_bytes(final(buf)@),
    {
        self.as_base64_config(Base64Alphabet::Standard, buf)
    }

    /// Writes the digest's URL-safe base64, the form that names archive
    /// entries, into a scratch buffer.
    pub fn as_base64_urlsafe(&self, buf: &mut Vec<u8>)
        ensures
            final(buf)@ == spec_b64_encode(Base64Alphabet::UrlSafe, self@),
            is_ascii_bytes(final(buf)@),
    {
        self.as_base64_config(Base64Alphabet::UrlSafe, buf)
    }
}

} // verus!
