//! The Fiat-Shamir transcript: bytes go in, field elements come out, and
//! every element that comes out depends on all the bytes that went in before
//! it.

use vstd::prelude::*;
use sha3::Digest;
use sha3::Keccak256;
use crate::field::FieldElement;
use crate::field::fred;
use crate::field::be_value;

verus! {

/// The Keccak-256 digest of a byte string.
pub uninterp spec fn keccak256_digest(data: Seq<u8>) -> Seq<u8>;

/// `sha3`'s `Keccak256::digest`: the Keccak-256 digest of the bytes.
#[verifier::external_body]
fn keccak256(data: &Vec<u8>) -> (r: Vec<u8>)
    ensures
        r@ == keccak256_digest(data@),
{
    Keccak256::digest(data).to_vec()
}

/// A hash function that is fed bytes and asked for the digest of what it was
/// fed.
pub trait HashTrait {
    /// The bytes fed so far.
    spec fn absorbed(&self) -> Seq<u8>;

    /// The digest that the function gives a byte string.
    spec fn digest(data: Seq<u8>) -> Seq<u8>;

    /// Feeds bytes.
    fn append(&mut self, data: &[u8])
        ensures
            final(self).absorbed() == old(self).absorbed() + data@,
    ;

    /// The digest of the bytes fed so far.
    fn generate_hash(&self) -> (r: Vec<u8>)
        ensures
            r@ == Self::digest(self.absorbed()),
    ;

    /// Forgets the bytes fed so far.
    fn reset(&mut self)
        ensures
            final(self).absorbed() == Seq::<u8>::empty(),
    ;
}

/// Keccak-256 as a hash function of a transcript.
pub struct KeccakWrapper {
    data: Vec<u8>,
}

impl KeccakWrapper {
    /// The function with nothing fed to it.
    pub fn new() -> (r: KeccakWrapper)
        ensures
            r.absorbed() == Seq::<u8>::empty(),
    {
        KeccakWrapper { data: Vec::new() }
    }
}

impl HashTrait for KeccakWrapper {
    closed spec fn absorbed(&self) -> Seq<u8> {
        self.data@
    }

    open spec fn digest(data: Seq<u8>) -> Seq<u8> {
        keccak256_digest(data)
    }

    fn append(&mut self, data: &[u8]) {
        let mut i: usize = 0;
        while i < data.len()
            invariant
                i <= data@.len(),
                self.data@ == old(self).data@ + data@.subrange(0, i as int),
            decreases data@.len() - i,
        {
            self.data.push(data[i]);
            proof {
                assert(data@.subrange(0, i as int).push(data@[i as int]) =~= data@.subrange(
                    0,
                    i + 1,
                ));
                assert(self.data@ =~= old(self).data@ + data@.subrange(0, i + 1));
            }
            i = i + 1;
        }
        proof {
            assert(data@.subrange(0, data@.len() as int) =~= data@);
        }
    }

    fn generate_hash(&self) -> (r: Vec<u8>) {
        keccak256(&self.data)
    }

    fn reset(&mut self) {
        self.data = Vec::new();
    }
}

/// The field element that a transcript gives once it has been fed `absorbed`.
pub open spec fn challenge_of<K: HashTrait>(absorbed: Seq<u8>) -> int {
    fred(be_value(K::digest(absorbed)))
}

/// The bytes that a transcript holds after `n` elements were taken from one
/// that held `absorbed`: each taking leaves the digest in place of what was
/// there.
pub open spec fn state_after<K: HashTrait>(absorbed: Seq<u8>, n: nat) -> Seq<u8>
    decreases n,
{
    if n == 0 {
        absorbed
    } else {
        K::digest(state_after::<K>(absorbed, (n - 1) as nat))
    }
}

/// A transcript over a hash function.
pub struct Transcript<K: HashTrait> {
    hash_function: K,
}

impl<K: HashTrait> Transcript<K> {
    /// The bytes that the next element depends on.
    pub closed spec fn absorbed(&self) -> Seq<u8> {
        self.hash_function.absorbed()
    }

    /// A transcript over the given hash function.
    pub fn new(hash_function: K) -> (r: Self)
        ensures
            r.absorbed() == hash_function.absorbed(),
    {
        Transcript { hash_function }
    }

    /// A transcript over the given hash function.
    pub fn init(hash_function: K) -> (r: Self)
        ensures
            r.absorbed() == hash_function.absorbed(),
    {
        Transcript { hash_function }
    }

    /// Feeds bytes to the transcript.
    pub fn absorb(&mut self, data: &[u8])
        ensures
            final(self).absorbed() == old(self).absorbed() + data@,
    {
        self.hash_function.append(data);
    }

    /// Feeds bytes to the transcript.
    pub fn append(&mut self, new_data: &[u8])
        ensures
            final(self).absorbed() == old(self).absorbed() + new_data@,
    {
        self.hash_function.append(new_data);
    }

    /// The digest of what the transcript holds, which then takes the place
    /// of what the transcript holds.
    pub fn sample_challenge(&mut self) -> (r: Vec<u8>)
        ensures
            r@ == K::digest(old(self).absorbed()),
            final(self).absorbed() == r@,
    {
        let result_hash = self.hash_function.generate_hash();
        self.hash_function.reset();
        self.hash_function.append(result_hash.as_slice());
        proof {
            assert(Seq::<u8>::empty() + result_hash@ =~= result_hash@);
        }
        result_hash
    }

    /// A field element that depends on everything fed so far: the digest of
    /// what the transcript holds, read as a big-endian integer and reduced.
    /// The digest then takes the place of what the transcript holds, so the
    /// next element differs.
    pub fn squeeze(&mut self) -> (r: FieldElement)
        ensures
            r@ == challenge_of::<K>(old(self).absorbed()),
            final(self).absorbed() == K::digest(old(self).absorbed()),
    {
        let hash_output = self.sample_challenge();
        FieldElement::from_be_bytes_mod_order(hash_output.as_slice())
    }

    /// A challenge: what `squeeze` gives.
    pub fn generate_challenge(&mut self) -> (r: FieldElement)
        ensures
            r@ == challenge_of::<K>(old(self).absorbed()),
            final(self).absorbed() == K::digest(old(self).absorbed()),
    {
        self.squeeze()
    }

    /// A field element: what `squeeze` gives.
    pub fn sample_field_element(&mut self) -> (r: FieldElement)
        ensures
            r@ == challenge_of::<K>(old(self).absorbed()),
            final(self).absorbed() == K::digest(old(self).absorbed()),
    {
        self.squeeze()
    }

    /// A field element: what `squeeze` gives.
    pub fn sample_element(&mut self) -> (r: FieldElement)
        ensures
            r@ == challenge_of::<K>(old(self).absorbed()),
            final(self).absorbed() == K::digest(old(self).absorbed()),
    {
        let hash = self.hash_function.generate_hash();
        self.hash_function.reset();
        self.hash_function.append(hash.as_slice());
        proof {
            assert(Seq::<u8>::empty() + hash@ =~= hash@);
        }
        FieldElement::from_be_bytes_mod_order(hash.as_slice())
    }

    /// The next `n` field elements of the transcript.
    pub fn sample_n_field_elements(&mut self, n: usize) -> (r: Vec<FieldElement>)
        ensures
            r@.len() == n,
            forall|i: int|
                0 <= i < n ==> (#[trigger] r@[i])@ == challenge_of::<K>(
                    state_after::<K>(old(self).absorbed(), i as nat),
                ),
            final(self).absorbed() == state_after::<K>(old(self).absorbed(), n as nat),
    {
        let mut out: Vec<FieldElement> = Vec::with_capacity(n);
        let mut i: usize = 0;
        while i < n
            invariant
                i <= n,
                out@.len() == i,
                forall|t: int|
                    0 <= t < i ==> (#[trigger] out@[t])@ == challenge_of::<K>(
                        state_after::<K>(old(self).absorbed(), t as nat),
                    ),
                self.absorbed() == state_after::<K>(old(self).absorbed(), i as nat),
            decreases n - i,
        {
            let element = self.sample_field_element();
            out.push(element);
            i = i + 1;
        }
        out
    }
}

} // verus!
