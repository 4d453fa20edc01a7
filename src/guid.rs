use vstd::prelude::*;
use sha2::Digest;

verus! {

/// Width of an identifier in bytes.
pub const GUID_LEN: usize = 32;

/// Width of an identifier in bits.
pub const GUID_BITS: usize = 256;

/// The SHA-256 digest of the UTF-8 encoding of a string.
pub uninterp spec fn sha256_of(s: Seq<char>) -> Seq<u8>;

/// Relies on sha2::Sha256::digest: the 32-byte digest of the string's bytes.
#[verifier::external_body]
fn sha256(s: &str) -> (r: [u8; 32])
    ensures
        r@ == sha256_of(s@),
{
    sha2::Sha256::digest(s.as_bytes()).into()
}

/// The lower-case hexadecimal digit for a value below sixteen.
pub open spec fn hex_digit(v: int) -> char {
    if v < 10 {
        ((v + 48) as u8) as char
    } else {
        ((v + 87) as u8) as char
    }
}

/// Two lower-case hexadecimal digits per byte, most significant first.
pub open spec fn hex_of(b: Seq<u8>) -> Seq<char>
    decreases b.len(),
{
    if b.len() == 0 {
        Seq::empty()
    } else {
        hex_of(b.drop_last()) + seq![hex_digit(b.last() as int / 16), hex_digit(b.last() as int % 16)]
    }
}

pub open spec fn is_hex_char(c: char) -> bool {
    ('0' <= c && c <= '9') || ('a' <= c && c <= 'f') || ('A' <= c && c <= 'F')
}

/// The value of a hexadecimal digit of either case.
pub open spec fn hex_value(c: char) -> int {
    if '0' <= c && c <= '9' {
        c as int - 48
    } else if 'a' <= c && c <= 'f' {
        c as int - 87
    } else {
        c as int - 55
    }
}

/// An even number of hexadecimal digits.
pub open spec fn is_hex_str(s: Seq<char>) -> bool {
    &&& s.len() % 2 == 0
    &&& forall|i: int| 0 <= i < s.len() ==> is_hex_char(#[trigger] s[i])
}

/// The bytes that a string of hexadecimal digit pairs stands for.
pub open spec fn hex_decoded(s: Seq<char>) -> Seq<u8>
    decreases s.len(),
{
    if s.len() < 2 {
        Seq::empty()
    } else {
        let n = s.len();
        hex_decoded(s.take(n - 2)).push(
            (hex_value(s[n - 2]) * 16 + hex_value(s[n - 1])) as u8,
        )
    }
}

/// Relies on hex::encode: two lower-case digits for each byte.
#[verifier::external_body]
fn hex_encode(b: &[u8; 32]) -> (r: String)
    ensures
        r@ == hex_of(b@),
{
    hex::encode(b)
}

/// Relies on hex::decode: it accepts exactly the strings of digit pairs (of either case)
/// and yields one byte per pair.
#[verifier::external_body]
fn hex_decode(s: &str) -> (r: Result<Vec<u8>, hex::FromHexError>)
    ensures
        r is Ok <==> is_hex_str(s@),
        r matches Ok(v) ==> v@ == hex_decoded(s@),
{
    hex::decode(s)
}

#[verifier::external_type_specification]
#[verifier::external_body]
pub struct ExFromHexError(hex::FromHexError);

/// A 256-bit identifier in the keyspace shared by peers and keys.
#[derive(Clone, Copy, Debug, Eq, Hash, PartialOrd, Ord)]
pub struct GUID(pub [u8; GUID_LEN]);

impl View for GUID {
    type V = Seq<u8>;

    open spec fn view(&self) -> Seq<u8> {
        self.0@
    }
}

impl PartialEq for GUID {
    fn eq(&self, other: &GUID) -> (r: bool) {
        let mut i: usize = 0;
        while i < GUID_LEN
            invariant
                i <= GUID_LEN,
                self@.len() == GUID_LEN,
                other@.len() == GUID_LEN,
                forall|j: int| 0 <= j < i ==> self@[j] == other@[j],
            decreases GUID_LEN - i,
        {
            if self.0[i] != other.0[i] {
                return false;
            }
            i = i + 1;
        }
        assert(self@ =~= other@);
        true
    }
}

impl vstd::std_specs::cmp::PartialEqSpecImpl for GUID {
    open spec fn obeys_eq_spec() -> bool {
        true
    }

    open spec fn eq_spec(&self, other: &GUID) -> bool {
        self@ == other@
    }
}

/// Hex text of at most one identifier's width.
pub open spec fn guid_hex_ok(s: Seq<char>) -> bool {
    is_hex_str(s) && s.len() <= 2 * GUID_LEN
}

/// The identifier whose leading bytes are `b`, zero-padded to full width.
pub open spec fn padded(b: Seq<u8>) -> Seq<u8> {
    Seq::new(GUID_LEN as nat, |i: int| if i < b.len() { b[i] } else { 0u8 })
}

impl GUID {
    /// The identifier of a seed string: its SHA-256 digest.
    pub fn new(data: String) -> (r: GUID)
        ensures
            r@ == sha256_of(data@),
    {
        GUID(sha256(data.as_str()))
    }

    /// Lower-case hexadecimal text of the identifier.
    pub fn to_hex(self) -> (r: String)
        ensures
            r@ == hex_of(self@),
    {
        hex_encode(&self.0)
    }

    /// Reads the hexadecimal text of an identifier; shorter text leaves the
    /// trailing bytes zero.
    pub fn from_hex(hex_str: String) -> (r: GUID)
        requires
            guid_hex_ok(hex_str@),
        ensures
            r@ == padded(hex_decoded(hex_str@)),
    {
        let mut data = [0u8; GUID_LEN];
        match hex_decode(hex_str.as_str()) {
            Ok(decoded) => {
                proof {
                    lemma_hex_decoded_len(hex_str@);
                }
                let mut i: usize = 0;
                while i < decoded.len()
                    invariant
                        i <= decoded@.len(),
                        decoded@ == hex_decoded(hex_str@),
                        decoded@.len() <= GUID_LEN,
                        data@.len() == GUID_LEN,
                        forall|j: int| 0 <= j < i ==> data@[j] == decoded@[j],
                        forall|j: int| i <= j < GUID_LEN ==> data@[j] == 0u8,
                    decreases decoded@.len() - i,
                {
                    data[i] = decoded[i];
                    i = i + 1;
                }
                assert(data@ =~= padded(decoded@));
                GUID(data)
            },
            Err(_) => {
                // unreachable: the text is well formed
                assert(false);
                GUID(data)
            },
        }
    }
}

/// Decoding yields half as many bytes as there are digits.
pub proof fn lemma_hex_decoded_len(s: Seq<char>)
    requires
        s.len() % 2 == 0,
    ensures
        hex_decoded(s).len() == s.len() / 2,
    decreases s.len(),
{
    if s.len() >= 2 {
        lemma_hex_decoded_len(s.take(s.len() - 2));
    }
}

/// Hex text of bytes is well formed and decodes back to those bytes.
pub proof fn lemma_hex_round_trip(b: Seq<u8>)
    ensures
        is_hex_str(hex_of(b)),
        hex_of(b).len() == 2 * b.len(),
        hex_decoded(hex_of(b)) == b,
    decreases b.len(),
{
    if b.len() > 0 {
        let p = b.drop_last();
        lemma_hex_round_trip(p);
        let h = hex_of(b);
        let x = b.last() as int;
        assert(h.take(h.len() - 2) =~= hex_of(p));
        assert(hex_value(hex_digit(x / 16)) == x / 16);
        assert(hex_value(hex_digit(x % 16)) == x % 16);
        assert(((x / 16) * 16 + x % 16) as u8 == b.last());
        assert(b =~= p.push(b.last()));
        assert forall|i: int| 0 <= i < h.len() implies is_hex_char(#[trigger] h[i]) by {
            if i < h.len() - 2 {
                assert(h[i] == hex_of(p)[i]);
            }
        }
    }
}

/// Decoding the hex text of an identifier gives the identifier back.
pub proof fn lemma_guid_hex_round_trip(id: GUID)
    ensures
        guid_hex_ok(hex_of(id@)),
        padded(hex_decoded(hex_of(id@))) == id@,
{
    lemma_hex_round_trip(id@);
    assert(padded(id@) =~= id@);
}

/// Byte-wise exclusive or of two identifiers.
#[derive(Debug, PartialEq, Eq, PartialOrd, Ord)]
pub struct Distance(pub [u8; GUID_LEN]);

impl View for Distance {
    type V = Seq<u8>;

    open spec fn view(&self) -> Seq<u8> {
        self.0@
    }
}

/// The distance between two byte strings of equal length: their byte-wise xor.
pub open spec fn xor_distance(a: Seq<u8>, b: Seq<u8>) -> Seq<u8> {
    Seq::new(a.len(), |i: int| a[i] ^ b[i])
}

impl Distance {
    pub fn calc(id1: &GUID, id2: &GUID) -> (r: Distance)
        ensures
            r@ == xor_distance(id1@, id2@),
    {
        let mut dist = [0u8; GUID_LEN];
        let mut i: usize = 0;
        while i < GUID_LEN
            invariant
                i <= GUID_LEN,
                dist@.len() == GUID_LEN,
                id1@.len() == GUID_LEN,
                id2@.len() == GUID_LEN,
                forall|j: int| 0 <= j < i ==> dist@[j] == id1@[j] ^ id2@[j],
            decreases GUID_LEN - i,
        {
            dist[i] = id1.0[i] ^ id2.0[i];
            i = i + 1;
        }
        assert(dist@ =~= xor_distance(id1@, id2@));
        Distance(dist)
    }
}

/// The distance is symmetric, and each identifier is at distance zero from itself.
pub proof fn lemma_distance_symmetric(a: GUID, b: GUID)
    ensures
        xor_distance(a@, b@) == xor_distance(b@, a@),
        forall|i: int| 0 <= i < GUID_LEN ==> #[trigger] xor_distance(a@, a@)[i] == 0u8,
{
    assert forall|i: int| 0 <= i < GUID_LEN implies xor_distance(a@, b@)[i] == xor_distance(b@, a@)[i] by {
        let x = a@[i];
        let y = b@[i];
        assert(x ^ y == y ^ x) by (bit_vector);
    }
    assert(xor_distance(a@, b@) =~= xor_distance(b@, a@));
    assert forall|i: int| 0 <= i < GUID_LEN implies #[trigger] xor_distance(a@, a@)[i] == 0u8 by {
        let x = a@[i];
        assert(x ^ x == 0) by (bit_vector);
    }
}

} // verus!
