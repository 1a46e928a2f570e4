use vstd::prelude::*;
use vstd::string::{StringSliceAdditionalSpecFns, is_ascii_spec_bytes};

verus! {

/// The bytes of `b` followed by zeros up to 64 bytes.
pub open spec fn padded(b: Seq<u8>) -> Seq<u8> {
    b + Seq::new((64 - b.len()) as nat, |i: int| 0u8)
}

/// 64 zero bytes.
pub open spec fn zeroed() -> Seq<u8> {
    Seq::new(64, |i: int| 0u8)
}

/// The secret held by a fresh `SensitiveData`, as bytes.
pub open spec fn secret_note() -> Seq<u8> {
    "Sensitive information: secret_key=ABC123!\0".spec_bytes()
}

/// Copies `bytes` into the front of a zeroed 64-byte array.
pub fn pad_to_align(bytes: &[u8]) -> (r: [u8; 64])
    requires
        bytes@.len() <= 64,
    ensures
        r@ == padded(bytes@),
{
    let mut array = [0u8; 64];
    let mut i: usize = 0;
    while i < bytes.len()
        invariant
            i <= bytes@.len() <= 64,
            forall|j: int| 0 <= j < i ==> array@[j] == bytes@[j],
            forall|j: int| i <= j < 64 ==> array@[j] == 0u8,
        decreases bytes@.len() - i,
    {
        array[i] = bytes[i];
        i = i + 1;
    }
    assert(array@ =~= padded(bytes@));
    array
}

/// A fixed-size buffer that holds a secret until it is wiped.
pub struct SensitiveData {
    data: [u8; 64],
}

impl SensitiveData {
    /// The buffer's bytes.
    pub closed spec fn bytes(&self) -> Seq<u8> {
        self.data@
    }

    /// A buffer that holds the secret note, zero-padded.
    pub fn new() -> (r: Self)
        ensures
            r.bytes() == padded(secret_note()),
    {
        let text: &str = "Sensitive information: secret_key=ABC123!\0";
        proof {
            reveal_strlit("Sensitive information: secret_key=ABC123!\0");
            is_ascii_spec_bytes(text);
        }
        SensitiveData { data: pad_to_align(text.as_bytes()) }
    }

    /// Overwrites every byte of the buffer with zero.
    pub fn zeroize(&mut self)
        ensures
            final(self).bytes() == zeroed(),
    {
        self.data = [0u8; 64];
        assert(self.data@ =~= zeroed());
    }

    /// A copy of the buffer's bytes.
    pub fn contents(&self) -> (r: Vec<u8>)
        ensures
            r@ == self.bytes(),
    {
        let mut v: Vec<u8> = Vec::new();
        let mut i: usize = 0;
        while i < 64
            invariant
                i <= 64,
                v@ == self.data@.take(i as int),
            decreases 64 - i,
        {
            v.push(self.data[i]);
            i = i + 1;
            proof {
                assert(v@ =~= self.data@.take(i as int));
            }
        }
        assert(self.data@.take(64) =~= self.data@);
        v
    }
}

} // verus!
