use sha2::Digest;
use vstd::prelude::*;

verus! {

/// What SHA-256 yields for the given bytes.
pub uninterp spec fn sha256_of(data: Seq<u8>) -> Seq<u8>;

/// The unpadded URL-safe base64 text of the given bytes.
pub uninterp spec fn base64_url_of(bytes: Seq<u8>) -> Seq<char>;

/// The characters of the URL-safe base64 alphabet.
pub open spec fn is_url_safe_char(c: char) -> bool {
    ('A' <= c && c <= 'Z') || ('a' <= c && c <= 'z') || ('0' <= c && c <= '9') || c == '-' || c
        == '_'
}

/// Relies on sha2's `Sha256::digest`: the 32-byte digest of `data`, which
/// depends on the bytes alone.
#[verifier::external_body]
fn sha256(data: &[u8]) -> (r: [u8; 32])
    ensures
        r@ == sha256_of(data@),
{
    <[u8; 32]>::from(sha2::Sha256::digest(data))
}

/// Relies on base64's `encode_config` with `URL_SAFE_NO_PAD`: the unpadded
/// URL-safe text of the bytes, 43 characters of that alphabet for 32 bytes.
/// The encoding is lossless, so no other 32 bytes have the same text.
#[verifier::external_body]
fn encode_url_safe(bytes: &[u8; 32]) -> (r: String)
    ensures
        r@ == base64_url_of(bytes@),
        r@.len() == 43,
        forall|i: int| 0 <= i < r@.len() ==> is_url_safe_char(#[trigger] r@[i]),
        forall|b: Seq<u8>| b.len() == 32 && #[trigger] base64_url_of(b) == r@ ==> b == bytes@,
{
    base64::encode_config(bytes, base64::URL_SAFE_NO_PAD)
}

/// Relies on base64's `decode_config` with `URL_SAFE_NO_PAD`: the unpadded
/// URL-safe text of any bytes decodes back to those bytes. What it returns on
/// other text is left open; it returns an error rather than panic.
#[verifier::external_body]
fn decode_url_safe(s: &str) -> (r: Option<Vec<u8>>)
    ensures
        forall|b: Seq<u8>| #[trigger] base64_url_of(b) == s@ ==> r is Some && r.unwrap()@ == b,
{
    base64::decode_config(s, base64::URL_SAFE_NO_PAD).ok()
}

/// Deriving a key depends on the bytes alone: equal bytes give equal keys, and
/// bytes whose digests differ give different keys.
pub proof fn lemma_derive_deterministic(b1: Seq<u8>, b2: Seq<u8>)
    ensures
        b1 == b2 ==> sha256_of(b1) == sha256_of(b2),
        sha256_of(b1) != sha256_of(b2) ==> b1 != b2,
{
}

/// A 256-bit key, compared byte for byte.
#[derive(Debug, Clone, Copy, Hash)]
pub struct Key {
    value: [u8; 32],
}

impl View for Key {
    type V = Seq<u8>;

    closed spec fn view(&self) -> Seq<u8> {
        self.value@
    }
}

/// Every key views as exactly 32 bytes.
pub broadcast proof fn lemma_key_len(k: Key)
    ensures
        #[trigger] k@.len() == 32,
{
}

impl Key {
    /// The key of `data`: its SHA-256 digest.
    pub fn new(data: &[u8]) -> (r: Key)
        ensures
            r@ == sha256_of(data@),
    {
        Key { value: sha256(data) }
    }

    /// The key made of the given 32 bytes.
    pub fn from_value(value: [u8; 32]) -> (r: Key)
        ensures
            r@ == value@,
    {
        Key { value }
    }

    /// The 32 bytes of the key.
    pub fn value(&self) -> (r: &[u8; 32])
        ensures
            r@ == self@,
    {
        &self.value
    }

    /// The canonical text of the key: unpadded URL-safe base64, 43 characters
    /// of `A-Z`, `a-z`, `0-9`, `-` and `_`, which names this key alone.
    pub fn as_base64(&self) -> (r: String)
        ensures
            r@ == base64_url_of(self@),
            r@.len() == 43,
            forall|i: int| 0 <= i < r@.len() ==> is_url_safe_char(#[trigger] r@[i]),
            forall|b: Seq<u8>| b.len() == 32 && #[trigger] base64_url_of(b) == r@ ==> b == self@,
    {
        encode_url_safe(&self.value)
    }

    /// The key whose canonical text is `encoded`, if there is one. Any other
    /// text, padded or of another length included, gives `None`.
    pub fn from_base64(encoded: &str) -> (r: Option<Key>)
        ensures
            r is Some <==> exists|b: Seq<u8>| b.len() == 32 && base64_url_of(b) == encoded@,
            r matches Some(k) ==> base64_url_of(k@) == encoded@,
            forall|b: Seq<u8>|
                b.len() == 32 && #[trigger] base64_url_of(b) == encoded@ ==> (r matches Some(k)
                    && k@ == b),
    {
        let decoded = decode_url_safe(encoded);
        match decoded {
            None => None,
            Some(bytes) => {
                if bytes.len() != 32 {
                    return None;
                }
                let mut value = [0u8; 32];
                let mut i: usize = 0;
                while i < 32
                    invariant
                        bytes@.len() == 32,
                        0 <= i <= 32,
                        forall|j: int| 0 <= j < i ==> value@[j] == bytes@[j],
                    decreases 32 - i,
                {
                    value[i] = bytes[i];
                    i = i + 1;
                }
                let key = Key { value };
                assert(key@ =~= bytes@);
                let text = key.as_base64();
                if text == encoded.to_owned() {
                    Some(key)
                } else {
                    None
                }
            },
        }
    }

    /// Whether the two keys hold the same bytes.
    pub fn same_as(&self, other: &Key) -> (r: bool)
        ensures
            r == (self@ == other@),
    {
        let mut i: usize = 0;
        while i < 32
            invariant
                0 <= i <= 32,
                forall|j: int| 0 <= j < i ==> self.value@[j] == other.value@[j],
            decreases 32 - i,
        {
            if self.value[i] != other.value[i] {
                return false;
            }
            i = i + 1;
        }
        assert(self.value@ =~= other.value@);
        true
    }
}

impl PartialEq for Key {
    fn eq(&self, other: &Key) -> (r: bool) {
        self.same_as(other)
    }
}

impl vstd::std_specs::cmp::PartialEqSpecImpl for Key {
    open spec fn obeys_eq_spec() -> bool {
        true
    }

    open spec fn eq_spec(&self, other: &Key) -> bool {
        self@ == other@
    }
}

impl Eq for Key {
}

} // verus!
