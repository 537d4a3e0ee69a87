//! Vector identifiers.
//!
//! An identifier is the 32-byte BLAKE3 digest of a name (or of a random
//! UUID); it is shown as `vec_` and the first eight hex digits of the digest.
use vstd::prelude::*;
use vstd::string::StringSliceAdditionalSpecFns;

verus! {

/// The BLAKE3 digest of a byte string.
pub uninterp spec fn blake3_digest(data: Seq<u8>) -> Seq<u8>;

/// The BLAKE3 hash of the bytes, by `blake3::hash`.  Claimed: the result is
/// the digest of exactly these bytes (a function of them alone).
#[verifier::external_body]
fn blake3_hash(data: &[u8]) -> (r: [u8; 32])
    ensures
        r@ == blake3_digest(data@),
{
    blake3::hash(data).into()
}

/// Sixteen fresh random bytes: a version-4 UUID, by `uuid::Uuid::new_v4`.
/// The bytes come from the system's random source; claimed only what the
/// source masks in: the version nibble of byte 6 is 4 and the variant bits
/// of byte 8 are `10`.
#[verifier::external_body]
fn random_uuid_bytes() -> (r: [u8; 16])
    ensures
        r@[6] & 0xf0u8 == 0x40u8,
        r@[8] & 0xc0u8 == 0x80u8,
{
    *uuid::Uuid::new_v4().as_bytes()
}

/// The lower-case hex digit of a number below sixteen.
pub open spec fn hex_digit(n: nat) -> char {
    if n < 10 {
        ((n + 48) as u8) as char
    } else {
        ((n + 87) as u8) as char
    }
}

/// The lower-case hex encoding of bytes: two digits per byte, high first.
pub open spec fn hex_lower(bytes: Seq<u8>) -> Seq<char>
    decreases bytes.len(),
{
    if bytes.len() == 0 {
        Seq::empty()
    } else {
        hex_lower(bytes.drop_last()) + seq![hex_digit((bytes.last() / 16) as nat), hex_digit((bytes.last() % 16) as nat)]
    }
}

/// The hex encoding has two digits per byte.
pub proof fn lemma_hex_lower_len(bytes: Seq<u8>)
    ensures
        hex_lower(bytes).len() == 2 * bytes.len(),
    decreases bytes.len(),
{
    if bytes.len() > 0 {
        lemma_hex_lower_len(bytes.drop_last());
    }
}

/// The lower-case hex encoding of 32 bytes, by `hex::encode`.  Claimed: the
/// string is `hex_lower` of the bytes, which is what the crate's table of
/// lower-case digits produces.
#[verifier::external_body]
fn hex_encode(data: &[u8; 32]) -> (r: String)
    ensures
        r@ == hex_lower(data@),
{
    hex::encode(data)
}

/// A vector identifier: a 32-byte digest.
#[derive(Debug, Eq, Hash, PartialOrd, Ord)]
pub struct VectorId(pub [u8; 32]);

impl Clone for VectorId {
    /// The same digest.
    fn clone(&self) -> (r: Self)
        ensures
            r == *self,
    {
        VectorId(self.0)
    }
}

impl PartialEq for VectorId {
    fn eq(&self, other: &Self) -> (r: bool) {
        let mut i: usize = 0;
        while i < 32
            invariant
                i <= 32,
                forall|j: int| 0 <= j < i ==> self.0@[j] == other.0@[j],
            decreases 32 - i,
        {
            if self.0[i] != other.0[i] {
                return false;
            }
            i = i + 1;
        }
        assert(self.0@ =~= other.0@);
        true
    }
}

/// Two identifiers are equal exactly when their bytes are.
pub proof fn lemma_id_eq(a: VectorId, b: VectorId)
    ensures
        (a.0@ == b.0@) <==> (a == b),
{
    if a.0@ == b.0@ {
        assert(a.0@ =~= b.0@);
        assert(a.0 =~= b.0);
    }
}

impl vstd::std_specs::cmp::PartialEqSpecImpl for VectorId {
    open spec fn obeys_eq_spec() -> bool {
        true
    }

    open spec fn eq_spec(&self, other: &Self) -> bool {
        self.0@ == other.0@
    }
}

/// Sixteen bytes in the form of a version-4 UUID: version nibble 4 in byte
/// 6, variant bits `10` in byte 8.
pub open spec fn uuid_v4_form(u: Seq<u8>) -> bool {
    &&& u.len() == 16
    &&& u[6] & 0xf0u8 == 0x40u8
    &&& u[8] & 0xc0u8 == 0x80u8
}

impl VectorId {
    /// A fresh identifier: the digest of a random UUID.
    pub fn new() -> (r: Self)
        ensures
            exists|u: Seq<u8>| #[trigger] uuid_v4_form(u) && r.0@ == blake3_digest(u),
    {
        let uuid = random_uuid_bytes();
        let r = VectorId(blake3_hash(&uuid));
        assert(uuid_v4_form(uuid@));
        r
    }

    /// The identifier of a name: the digest of its UTF-8 bytes.
    pub fn from_string(s: &str) -> (r: Self)
        ensures
            r.0@ == blake3_digest(s.spec_bytes()),
    {
        VectorId(blake3_hash(s.as_bytes()))
    }

    /// The digest bytes.
    pub fn as_bytes(&self) -> (r: &[u8; 32])
        ensures
            r@ == self.0@,
    {
        &self.0
    }

    /// The digest in lower-case hex: 64 digits.
    pub fn hash_hex(&self) -> (r: String)
        ensures
            r@ == hex_lower(self.0@),
    {
        hex_encode(&self.0)
    }

    /// The short display form: `vec_` and the first eight hex digits.
    pub open spec fn display_form(&self) -> Seq<char> {
        "vec_"@ + hex_lower(self.0@).subrange(0, 8)
    }

    /// The short display form: `vec_` and the first eight hex digits.
    pub fn to_string(&self) -> (r: String)
        ensures
            r@ == self.display_form(),
    {
        let hex = self.hash_hex();
        proof {
            lemma_hex_lower_len(self.0@);
        }
        let head = hex.as_str().substring_char(0, 8);
        let mut r = String::from_str("vec_");
        r.append(head);
        r
    }
}

/// The bytes as a list of decimals, `, ` between them.
pub open spec fn byte_list(s: Seq<u8>) -> Seq<char>
    decreases s.len(),
{
    if s.len() == 0 {
        Seq::empty()
    } else if s.len() == 1 {
        crate::text::decimal(s[0] as nat)
    } else {
        byte_list(s.drop_last()) + ", "@ + crate::text::decimal(s.last() as nat)
    }
}

impl VectorId {
    /// The debugging form: `VectorId([` the bytes in decimal `])`.
    pub open spec fn debug_form(&self) -> Seq<char> {
        "VectorId(["@ + byte_list(self.0@) + "])"@
    }

    /// The debugging form, as `{:?}` prints it.
    pub fn debug_string(&self) -> (r: String)
        ensures
            r@ == self.debug_form(),
    {
        let mut r = String::from_str("VectorId([");
        let ghost start = r@;
        let mut i: usize = 0;
        while i < 32
            invariant
                i <= 32,
                self.0@.len() == 32,
                start == "VectorId(["@,
                r@ == start + byte_list(self.0@.take(i as int)),
            decreases 32 - i,
        {
            proof {
                assert(self.0@.take(i + 1).drop_last() =~= self.0@.take(i as int));
                assert(self.0@.take(i + 1).last() == self.0@[i as int]);
            }
            if i > 0 {
                r.append(", ");
            }
            crate::text::push_decimal(&mut r, self.0[i] as usize);
            proof {
                if i == 0 {
                    assert(self.0@.take(0) =~= Seq::<u8>::empty());
                    assert(byte_list(self.0@.take(1)) == crate::text::decimal(self.0@[0] as nat));
                }
                assert(r@ =~= start + byte_list(self.0@.take(i + 1)));
            }
            i = i + 1;
        }
        assert(self.0@.take(32) =~= self.0@);
        r.append("])");
        r
    }
}

} // verus!
