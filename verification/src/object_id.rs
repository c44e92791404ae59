//! Object ids: fixed-length content hashes and their lowercase hex form.

use crate::bytes::bytes_equal_to;
use crate::error::Error;
use vstd::prelude::*;
use vstd::string::StringSliceAdditionalSpecFns;

verus! {

/// Length in bytes of a SHA-1 object id.
pub const SHA1_LEN: usize = 20;

/// Length in bytes of a SHA-256 object id.
pub const SHA256_LEN: usize = 32;

/// Whether `n` is the byte length of an object id.
pub open spec fn is_id_len(n: nat) -> bool {
    n == 20 || n == 32
}

/// Whether `b` is one of `0`-`9` or `a`-`f`.
pub open spec fn is_hex_digit(b: u8) -> bool {
    (0x30 <= b <= 0x39) || (0x61 <= b <= 0x66)
}

/// The number a hex digit stands for.
pub open spec fn hex_value(b: u8) -> int {
    if b <= 0x39 {
        b - 0x30
    } else {
        b - 0x61 + 10
    }
}

/// The lowercase hex digit for a number below sixteen.
pub open spec fn hex_digit(n: int) -> u8 {
    if n < 10 {
        (0x30 + n) as u8
    } else {
        (0x61 + n - 10) as u8
    }
}

/// Whether every byte of `s` is a lowercase hex digit.
pub open spec fn all_hex(s: Seq<u8>) -> bool {
    forall|i: int| 0 <= i < s.len() ==> is_hex_digit(#[trigger] s[i])
}

/// Whether `s` is the canonical text of an object id: 40 or 64 lowercase hex
/// digits and nothing else.
pub open spec fn is_hex_id(s: Seq<u8>) -> bool {
    (s.len() == 40 || s.len() == 64) && all_hex(s)
}

/// The hex text of `bytes`, two lowercase digits per byte, high nibble first.
pub open spec fn hex_encode(bytes: Seq<u8>) -> Seq<u8> {
    Seq::new(
        2 * bytes.len(),
        |i: int|
            if i % 2 == 0 {
                hex_digit(bytes[i / 2] as int / 16)
            } else {
                hex_digit(bytes[i / 2] as int % 16)
            },
    )
}

/// The bytes that the hex text `s` stands for.
pub open spec fn hex_decode(s: Seq<u8>) -> Seq<u8> {
    Seq::new(
        s.len() / 2,
        |i: int| (hex_value(s[2 * i]) * 16 + hex_value(s[2 * i + 1])) as u8,
    )
}

/// Decoding undoes encoding, for any bytes.
pub proof fn lemma_hex_decode_encode(bytes: Seq<u8>)
    ensures
        all_hex(hex_encode(bytes)),
        hex_encode(bytes).len() == 2 * bytes.len(),
        hex_decode(hex_encode(bytes)) == bytes,
{
    let h = hex_encode(bytes);
    assert forall|i: int| 0 <= i < bytes.len() implies #[trigger] hex_decode(h)[i] == bytes[i] by {
        assert(h[2 * i] == hex_digit(bytes[i] as int / 16));
        assert(h[2 * i + 1] == hex_digit(bytes[i] as int % 16));
    }
}

/// Encoding undoes decoding, for hex text of even length.
pub proof fn lemma_hex_encode_decode(s: Seq<u8>)
    requires
        all_hex(s),
        s.len() % 2 == 0,
    ensures
        hex_decode(s).len() * 2 == s.len(),
        hex_encode(hex_decode(s)) == s,
{
    let d = hex_decode(s);
    assert forall|i: int| 0 <= i < s.len() implies #[trigger] hex_encode(d)[i] == s[i] by {
        let k = i / 2;
        assert(is_hex_digit(s[2 * k]));
        assert(is_hex_digit(s[2 * k + 1]));
        assert(d[k] == (hex_value(s[2 * k]) * 16 + hex_value(s[2 * k + 1])) as u8);
    }
}

/// Two byte strings with the same hex text are the same bytes.
pub proof fn lemma_hex_encode_injective(a: Seq<u8>, b: Seq<u8>)
    requires
        hex_encode(a) == hex_encode(b),
    ensures
        a == b,
{
    lemma_hex_decode_encode(a);
    lemma_hex_decode_encode(b);
}

/// The content hash that names an object: 20 or 32 bytes, never changed after
/// it is made. Two ids are the same id exactly when their bytes are equal.
#[derive(Debug, PartialEq, Eq)]
pub struct ObjectId {
    bytes: Vec<u8>,
}

impl View for ObjectId {
    type V = Seq<u8>;

    closed spec fn view(&self) -> Seq<u8> {
        self.bytes@
    }
}

fn digit_value(b: u8) -> (r: Option<u8>)
    ensures
        is_hex_digit(b) ==> r == Some(hex_value(b) as u8),
        !is_hex_digit(b) ==> r is None,
{
    if 0x30 <= b && b <= 0x39 {
        Some(b - 0x30)
    } else if 0x61 <= b && b <= 0x66 {
        Some(b - 0x61 + 10)
    } else {
        None
    }
}

fn digit_of(n: u8) -> (r: u8)
    requires
        n < 16,
    ensures
        r == hex_digit(n as int),
        is_hex_digit(r),
{
    if n < 10 {
        0x30 + n
    } else {
        0x61 + (n - 10)
    }
}

impl ObjectId {
    /// Every id is 20 or 32 bytes long.
    #[verifier::type_invariant]
    pub open spec fn well_formed(self) -> bool {
        is_id_len(self@.len())
    }

    /// Makes an id from raw hash bytes; `None` unless there are 20 or 32.
    pub fn from_bytes(bytes: &[u8]) -> (r: Option<ObjectId>)
        ensures
            is_id_len(bytes@.len()) ==> r is Some && r->0@ == bytes@,
            !is_id_len(bytes@.len()) ==> r is None,
    {
        if bytes.len() == SHA1_LEN || bytes.len() == SHA256_LEN {
            let mut out: Vec<u8> = Vec::new();
            let mut i: usize = 0;
            while i < bytes.len()
                invariant
                    i <= bytes.len(),
                    out@ == bytes@.take(i as int),
                decreases bytes.len() - i,
            {
                out.push(bytes[i]);
                i += 1;
            }
            Some(ObjectId { bytes: out })
        } else {
            None
        }
    }

    /// Reads an id from its canonical text. Anything but 40 or 64 lowercase
    /// hex digits is refused.
    pub fn from_hex(hex: &[u8]) -> (r: Result<ObjectId, Error>)
        ensures
            is_hex_id(hex@) ==> r is Ok && r->Ok_0@ == hex_decode(hex@),
            !is_hex_id(hex@) ==> r == Err::<ObjectId, Error>(Error::InvalidObjectId),
    {
        let n: usize = hex.len();
        if n != 2 * SHA1_LEN && n != 2 * SHA256_LEN {
            return Err(Error::InvalidObjectId);
        }
        let mut out: Vec<u8> = Vec::new();
        let mut i: usize = 0;
        while i < n / 2
            invariant
                n == hex@.len(),
                n == 40 || n == 64,
                i <= n / 2,
                out@.len() == i,
                forall|j: int| 0 <= j < 2 * i ==> is_hex_digit(#[trigger] hex@[j]),
                forall|k: int|
                    0 <= k < i ==> #[trigger] out@[k] == (hex_value(hex@[2 * k]) * 16 + hex_value(
                        hex@[2 * k + 1],
                    )) as u8,
            decreases n / 2 - i,
        {
            let hi = digit_value(hex[2 * i]);
            let lo = digit_value(hex[2 * i + 1]);
            match (hi, lo) {
                (Some(h), Some(l)) => {
                    out.push(h * 16 + l);
                },
                _ => {
                    return Err(Error::InvalidObjectId);
                },
            }
            i += 1;
        }
        Ok(ObjectId { bytes: out })
    }

    /// Reads an id from a string, as `from_hex` does from its bytes.
    pub fn parse(text: &str) -> (r: Result<ObjectId, Error>)
        ensures
            is_hex_id(text.spec_bytes()) ==> r is Ok && r->Ok_0@ == hex_decode(text.spec_bytes()),
            !is_hex_id(text.spec_bytes()) ==> r == Err::<ObjectId, Error>(Error::InvalidObjectId),
    {
        ObjectId::from_hex(text.as_bytes())
    }

    /// The raw hash bytes.
    pub fn as_bytes(&self) -> (r: &[u8])
        ensures
            r@ == self@,
    {
        self.bytes.as_slice()
    }

    /// The canonical text of this id: lowercase hex, two digits per byte.
    pub fn to_hex(&self) -> (r: Vec<u8>)
        ensures
            r@ == hex_encode(self@),
            is_hex_id(r@),
    {
        proof {
            use_type_invariant(self);
        }
        let mut out: Vec<u8> = Vec::new();
        let mut i: usize = 0;
        while i < self.bytes.len()
            invariant
                i <= self.bytes.len(),
                out@.len() == 2 * i,
                forall|j: int| 0 <= j < 2 * i ==> #[trigger] out@[j] == hex_encode(self.bytes@)[j],
                forall|j: int| 0 <= j < 2 * i ==> is_hex_digit(#[trigger] out@[j]),
            decreases self.bytes.len() - i,
        {
            let b: u8 = self.bytes[i];
            out.push(digit_of(b / 16));
            out.push(digit_of(b % 16));
            i += 1;
        }
        out
    }

    /// Whether two ids are the same id.
    pub fn same(&self, other: &ObjectId) -> (r: bool)
        ensures
            r == (self@ == other@),
    {
        bytes_equal_to(self.bytes.as_slice(), other.bytes.as_slice())
    }

    /// Whether this id comes before `other` when ids are put in ascending
    /// order, byte by byte; the same order as that of their hex texts.
    pub fn precedes(&self, other: &ObjectId) -> (r: bool)
        ensures
            r == bytes_before(self@, other@),
    {
        bytes_precede(self.bytes.as_slice(), other.bytes.as_slice())
    }
}

impl Clone for ObjectId {
    fn clone(&self) -> (r: Self)
        ensures
            r@ == self@,
    {
        proof {
            use_type_invariant(self);
        }
        let bytes = self.bytes.clone();
        ObjectId { bytes }
    }
}

/// Lexicographic order on byte strings: at the first place where they
/// differ the smaller byte decides, and a proper prefix comes first.
pub open spec fn bytes_before(a: Seq<u8>, b: Seq<u8>) -> bool
    decreases a.len(),
{
    if b.len() == 0 {
        false
    } else if a.len() == 0 {
        true
    } else if a[0] != b[0] {
        a[0] < b[0]
    } else {
        bytes_before(a.drop_first(), b.drop_first())
    }
}

/// Of two byte strings one comes before the other, or they are the same;
/// and never both.
pub proof fn lemma_before_total(a: Seq<u8>, b: Seq<u8>)
    ensures
        a == b || bytes_before(a, b) || bytes_before(b, a),
        !(bytes_before(a, b) && bytes_before(b, a)),
        a == b ==> !bytes_before(a, b),
    decreases a.len(),
{
    if a.len() > 0 && b.len() > 0 && a[0] == b[0] {
        lemma_before_total(a.drop_first(), b.drop_first());
        if a.drop_first() == b.drop_first() {
            assert(a =~= seq![a[0]] + a.drop_first());
        }
    }
}

/// What comes before something that comes before a third comes before the
/// third.
pub proof fn lemma_before_trans(a: Seq<u8>, b: Seq<u8>, c: Seq<u8>)
    requires
        bytes_before(a, b),
        bytes_before(b, c),
    ensures
        bytes_before(a, c),
    decreases a.len(),
{
    if a.len() > 0 && a[0] == b[0] && b[0] == c[0] {
        lemma_before_trans(a.drop_first(), b.drop_first(), c.drop_first());
    }
}

proof fn lemma_before_skip(a: Seq<u8>, b: Seq<u8>, i: int)
    requires
        0 <= i <= a.len(),
        i <= b.len(),
        forall|j: int| 0 <= j < i ==> a[j] == b[j],
    ensures
        bytes_before(a, b) == bytes_before(a.skip(i), b.skip(i)),
    decreases i,
{
    if i > 0 {
        assert(a.drop_first().skip(i - 1) =~= a.skip(i));
        assert(b.drop_first().skip(i - 1) =~= b.skip(i));
        lemma_before_skip(a.drop_first(), b.drop_first(), i - 1);
    } else {
        assert(a.skip(0) =~= a);
        assert(b.skip(0) =~= b);
    }
}

/// Whether `a` comes before `b` in lexicographic order.
pub fn bytes_precede(a: &[u8], b: &[u8]) -> (r: bool)
    ensures
        r == bytes_before(a@, b@),
{
    let mut i: usize = 0;
    while i < a.len() && i < b.len()
        invariant
            i <= a.len(),
            i <= b.len(),
            forall|j: int| 0 <= j < i ==> a@[j] == b@[j],
        decreases a.len() - i,
    {
        if a[i] != b[i] {
            proof {
                lemma_before_skip(a@, b@, i as int);
            }
            return a[i] < b[i];
        }
        i += 1;
    }
    proof {
        lemma_before_skip(a@, b@, i as int);
    }
    i < b.len()
}

} // verus!
