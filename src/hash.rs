//! Fixed-size digests, the all-zero "absent" sentinel, and their hex form.
use rustc_serialize::hex::FromHex;
use rustc_serialize::hex::ToHex;
use vstd::prelude::*;
use vstd::string::StringSliceAdditionalSpecFns;

verus! {

/// Number of bytes in a digest.
pub const HASH_SIZE: usize = 32;

/// A 32-byte digest; all zeros means "absent".
pub type Hash256 = [u8; 32];

/// The sentinel: every byte zero.
pub open spec fn is_absent(h: Hash256) -> bool {
    forall|i: int| 0 <= i < 32 ==> #[trigger] h@[i] == 0u8
}

/// The absent digest as a value.
pub open spec fn absent_hash() -> Hash256 {
    vstd::array::spec_array_fill_for_copy_type::<u8, 32>(0u8)
}

/// The absent digest.
pub fn zero_hash() -> (r: Hash256)
    ensures
        is_absent(r),
        r == absent_hash(),
{
    [0u8; 32]
}

/// The absent digest is the only absent digest.
pub proof fn lemma_absent_hash(h: Hash256)
    ensures
        is_absent(absent_hash()),
        is_absent(h) <==> h == absent_hash(),
{
    assert(is_absent(absent_hash()));
    if is_absent(h) {
        assert(h =~= absent_hash());
    }
}

/// Whether a digest is the absent sentinel.
pub fn hash_is_absent(h: &Hash256) -> (r: bool)
    ensures
        r == is_absent(*h),
{
    let mut i: usize = 0;
    while i < 32
        invariant
            0 <= i <= 32,
            forall|j: int| 0 <= j < i ==> #[trigger] h@[j] == 0u8,
        decreases 32 - i,
    {
        if h[i] != 0 {
            return false;
        }
        i = i + 1;
    }
    true
}

/// Byte-wise equality of two digests.
pub fn hashes_equal(a: &Hash256, b: &Hash256) -> (r: bool)
    ensures
        r == (a@ == b@),
{
    let mut i: usize = 0;
    while i < 32
        invariant
            0 <= i <= 32,
            forall|j: int| 0 <= j < i ==> #[trigger] a@[j] == b@[j],
        decreases 32 - i,
    {
        if a[i] != b[i] {
            assert(a@[i as int] != b@[i as int]);
            return false;
        }
        i = i + 1;
    }
    assert(a@ =~= b@);
    true
}

/// Lowercase hex digit for a value below sixteen.
pub open spec fn hex_digit(n: int) -> char {
    seq!['0', '1', '2', '3', '4', '5', '6', '7', '8', '9', 'a', 'b', 'c', 'd', 'e', 'f'][n]
}

/// Two lowercase hex digits per byte, high nibble first.
pub open spec fn hex_of(b: Seq<u8>) -> Seq<char> {
    Seq::new(
        (2 * b.len()) as nat,
        |i: int|
            if i % 2 == 0 {
                hex_digit(b[i / 2] as int / 16)
            } else {
                hex_digit(b[i / 2] as int % 16)
            },
    )
}

/// A byte that spells a hex digit, in either case.
pub open spec fn is_hex_byte(c: u8) -> bool {
    (48 <= c <= 57) || (97 <= c <= 102) || (65 <= c <= 70)
}

/// The value of a hex-digit byte.
pub open spec fn hex_value(c: u8) -> int {
    if 48 <= c <= 57 {
        c - 48
    } else if 97 <= c <= 102 {
        c - 87
    } else {
        c - 55
    }
}

pub open spec fn all_hex_bytes(s: Seq<u8>) -> bool {
    forall|i: int| 0 <= i < s.len() ==> #[trigger] is_hex_byte(s[i])
}

/// The bytes that a string of hex-digit bytes spells, two digits per byte.
pub open spec fn unhex(s: Seq<u8>) -> Seq<u8> {
    Seq::new(
        s.len() / 2,
        |i: int| (hex_value(s[2 * i]) * 16 + hex_value(s[2 * i + 1])) as u8,
    )
}

/// The UTF-8 bytes of a hex string as made by `hex_of`.
pub open spec fn hex_bytes_of(b: Seq<u8>) -> Seq<u8> {
    Seq::new(hex_of(b).len(), |i: int| hex_of(b)[i] as u8)
}

/// The UTF-8 bytes of a text.
pub open spec fn text_bytes(s: Seq<char>) -> Seq<u8> {
    vstd::utf8::encode_utf8(s)
}

/// Relies on rustc_serialize's `ToHex::to_hex`: two lowercase digits per byte.
#[verifier::external_body]
fn to_hex_string(b: &[u8]) -> (r: String)
    ensures
        r@ == hex_of(b@),
{
    b.to_hex()
}

/// Relies on rustc_serialize's `FromHex::from_hex`: a string made of an even
/// number of hex-digit bytes decodes to the bytes they spell.
#[verifier::external_body]
fn from_hex_str(s: &str) -> (r: Option<Vec<u8>>)
    ensures
        all_hex_bytes(s.spec_bytes()) && s.spec_bytes().len() % 2 == 0 ==> r.is_some(),
        all_hex_bytes(s.spec_bytes()) && s.spec_bytes().len() % 2 == 0 ==> r->Some_0@ == unhex(
            s.spec_bytes(),
        ),
{
    s.from_hex().ok()
}

proof fn lemma_hex_digit_byte(n: int)
    requires
        0 <= n < 16,
    ensures
        is_hex_byte(hex_digit(n) as u8),
        hex_value(hex_digit(n) as u8) == n,
        '\0' <= hex_digit(n) <= '\u{7f}',
{
    assert(seq!['0', '1', '2', '3', '4', '5', '6', '7', '8', '9', 'a', 'b', 'c', 'd', 'e', 'f'][n]
        == hex_digit(n));
    assert('0' as u8 == 48u8 && '9' as u8 == 57u8 && 'a' as u8 == 97u8 && 'f' as u8 == 102u8);
    assert('1' as u8 == 49u8 && '2' as u8 == 50u8 && '3' as u8 == 51u8 && '4' as u8 == 52u8);
    assert('5' as u8 == 53u8 && '6' as u8 == 54u8 && '7' as u8 == 55u8 && '8' as u8 == 56u8);
    assert('b' as u8 == 98u8 && 'c' as u8 == 99u8 && 'd' as u8 == 100u8 && 'e' as u8 == 101u8);
}

/// The hex form of a digest is ASCII, and decoding its bytes gives the digest back.
pub proof fn lemma_hex_round_trip(b: Seq<u8>)
    ensures
        vstd::utf8::is_ascii_chars(hex_of(b)),
        all_hex_bytes(hex_bytes_of(b)),
        hex_bytes_of(b).len() == 2 * b.len(),
        unhex(hex_bytes_of(b)) == b,
{
    assert forall|i: int| 0 <= i < hex_of(b).len() implies '\0' <= #[trigger] hex_of(b)[i]
        <= '\u{7f}' && is_hex_byte(hex_of(b)[i] as u8) by {
        if i % 2 == 0 {
            lemma_hex_digit_byte(b[i / 2] as int / 16);
        } else {
            lemma_hex_digit_byte(b[i / 2] as int % 16);
        }
    }
    assert forall|i: int| 0 <= i < b.len() implies #[trigger] unhex(hex_bytes_of(b))[i] == b[i] by {
        lemma_hex_digit_byte(b[i] as int / 16);
        lemma_hex_digit_byte(b[i] as int % 16);
        assert((2 * i) % 2 == 0);
        assert((2 * i + 1) % 2 == 1);
        assert((2 * i) / 2 == i);
        assert((2 * i + 1) / 2 == i);
    }
    assert(unhex(hex_bytes_of(b)) =~= b);
}

/// Lowercase hex text of a digest.
pub fn encode_hash(h: &Hash256) -> (r: String)
    ensures
        r@ == hex_of(h@),
        r@.len() == 64,
{
    to_hex_string(h.as_slice())
}

/// Decodes an optional hex digest: absent text is the zero sentinel, and
/// text of sixty-four hex digits gives the digest it spells.
pub fn decode_hash(hash_option: &Option<String>) -> (r: Result<Hash256, String>)
    ensures
        hash_option.is_none() ==> (r matches Ok(h) && is_absent(h)),
        hash_option matches Some(s) ==> (r is Ok <==> (text_bytes(s@).len() == 64
            && all_hex_bytes(text_bytes(s@)))),
        hash_option matches Some(s) ==> (r matches Ok(h) ==> h@ == unhex(
            text_bytes(s@),
        )),
{
    match hash_option {
        None => Ok(zero_hash()),
        Some(text) => {
            let s: &str = text.as_str();
            let bytes: &[u8] = s.as_bytes();
            if bytes.len() != 64 {
                return Err("Invalid hash length".to_owned());
            }
            let mut i: usize = 0;
            while i < 64
                invariant
                    bytes@ == s.spec_bytes(),
                    s@ == text@,
                    *hash_option == Some(*text),
                    bytes@.len() == 64,
                    0 <= i <= 64,
                    forall|j: int| 0 <= j < i ==> #[trigger] is_hex_byte(bytes@[j]),
                decreases 64 - i,
            {
                let c: u8 = bytes[i];
                if !((48 <= c && c <= 57) || (97 <= c && c <= 102) || (65 <= c && c <= 70)) {
                    assert(!is_hex_byte(bytes@[i as int]));
                    return Err("Invalid hash character".to_owned());
                }
                i = i + 1;
            }
            match from_hex_str(s) {
                None => Err("Invalid hash".to_owned()),
                Some(v) => {
                    let mut h: Hash256 = [0u8; 32];
                    let mut k: usize = 0;
                    while k < 32
                        invariant
                            v@ == unhex(s.spec_bytes()),
                            v@.len() == 32,
                            0 <= k <= 32,
                            forall|j: int| 0 <= j < k ==> #[trigger] h@[j] == v@[j],
                        decreases 32 - k,
                    {
                        h[k] = v[k];
                        k = k + 1;
                    }
                    assert(h@ =~= v@);
                    Ok(h)
                },
            }
        },
    }
}

} // verus!
