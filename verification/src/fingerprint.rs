use vstd::prelude::*;

verus! {

/// The digest that the blake3 crate computes for a byte sequence. The digest
/// is a pure function of the input bytes alone, so it carries a name here;
/// nothing else is assumed of its value.
pub uninterp spec fn blake3_of(bytes: Seq<u8>) -> Seq<u8>;

/// Relies on blake3::hash: a deterministic digest of the complete byte
/// stream, returned at the default output size of 32 bytes
/// (blake3::OUT_LEN); Hash::as_bytes hands out exactly those bytes.
#[verifier::external_body]
fn blake3_bytes(content: &Vec<u8>) -> (r: Vec<u8>)
    ensures
        r@ == blake3_of(content@),
        r@.len() == 32,
{
    blake3::hash(content.as_slice()).as_bytes().to_vec()
}

/// A fixed-size content digest, stored as its raw bytes.
pub struct Fingerprint {
    pub bytes: Vec<u8>,
}

impl View for Fingerprint {
    type V = Seq<u8>;

    open spec fn view(&self) -> Seq<u8> {
        self.bytes@
    }
}

/// The ASCII code of the lowercase hexadecimal digit for a nibble.
pub open spec fn hex_digit(n: u8) -> u8
    recommends
        n < 16,
{
    if n < 10 {
        (n + 48) as u8
    } else {
        (n + 87) as u8
    }
}

/// The lowercase hexadecimal rendering of a byte sequence, two digits per
/// byte, high nibble first.
pub open spec fn hex_of(bytes: Seq<u8>) -> Seq<u8>
    decreases bytes.len(),
{
    if bytes.len() == 0 {
        Seq::empty()
    } else {
        hex_of(bytes.drop_last()).push(hex_digit(bytes.last() / 16)).push(
            hex_digit(bytes.last() % 16),
        )
    }
}

impl Fingerprint {
    /// A fingerprint is a digest of the default output size, 32 bytes.
    pub open spec fn wf(&self) -> bool {
        self@.len() == 32
    }

    /// The fingerprint of a file's complete content.
    pub fn of_content(content: &Vec<u8>) -> (r: Fingerprint)
        ensures
            r@ == blake3_of(content@),
            r.wf(),
    {
        let bytes = blake3_bytes(content);
        Fingerprint { bytes }
    }

    /// Byte-for-byte equality of two fingerprints.
    pub fn same(&self, other: &Fingerprint) -> (r: bool)
        ensures
            r == (self@ == other@),
    {
        if self.bytes.len() != other.bytes.len() {
            return false;
        }
        let n = self.bytes.len();
        let mut i: usize = 0;
        while i < n
            invariant
                n == self@.len(),
                n == other@.len(),
                0 <= i <= n,
                forall|j: int| 0 <= j < i ==> self@[j] == other@[j],
            decreases n - i,
        {
            if self.bytes[i] != other.bytes[i] {
                return false;
            }
            i = i + 1;
        }
        proof {
            assert(self@ =~= other@);
        }
        true
    }

    /// The lowercase hexadecimal text of this fingerprint, as ASCII bytes.
    pub fn to_hex(&self) -> (r: Vec<u8>)
        ensures
            r@ == hex_of(self@),
    {
        let mut r: Vec<u8> = Vec::new();
        let n = self.bytes.len();
        let mut i: usize = 0;
        while i < n
            invariant
                n == self@.len(),
                0 <= i <= n,
                r@ == hex_of(self@.take(i as int)),
            decreases n - i,
        {
            let b = self.bytes[i];
            let hi = b / 16;
            let lo = b % 16;
            let hi_digit: u8 = if hi < 10 {
                hi + 48
            } else {
                hi + 87
            };
            let lo_digit: u8 = if lo < 10 {
                lo + 48
            } else {
                lo + 87
            };
            r.push(hi_digit);
            r.push(lo_digit);
            proof {
                let pre = self@.take(i + 1);
                assert(pre.drop_last() =~= self@.take(i as int));
                assert(pre.last() == self@[i as int]);
            }
            i = i + 1;
        }
        proof {
            assert(self@.take(n as int) =~= self@);
        }
        r
    }

    /// Cloning a fingerprint keeps its bytes.
    pub fn duplicate(&self) -> (r: Fingerprint)
        ensures
            r@ == self@,
    {
        let n = self.bytes.len();
        let mut bytes: Vec<u8> = Vec::new();
        let mut i: usize = 0;
        while i < n
            invariant
                n == self@.len(),
                0 <= i <= n,
                bytes@ == self@.take(i as int),
            decreases n - i,
        {
            bytes.push(self.bytes[i]);
            proof {
                assert(self@.take(i + 1) =~= self@.take(i as int).push(self@[i as int]));
            }
            i = i + 1;
        }
        proof {
            assert(self@.take(n as int) =~= self@);
        }
        Fingerprint { bytes }
    }
}

/// Files with identical byte content get equal fingerprints: the digest is a
/// function of the content alone, so equal contents can never be told apart
/// by their fingerprints.
pub proof fn lemma_equal_content_equal_fingerprint(a: Seq<u8>, b: Seq<u8>)
    requires
        a == b,
    ensures
        blake3_of(a) == blake3_of(b),
{
}

} // verus!
