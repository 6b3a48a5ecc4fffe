//! AES-256 in counter mode, one key-stream byte at a time.

use aes::cipher::generic_array::GenericArray;
use aes::cipher::{BlockEncrypt, KeyInit};
use aes::Aes256;
use vstd::prelude::*;

use crate::octets::{be_bytes, be_nat, lemma_be_bytes_len, lemma_be_bytes_of_be_nat};

verus! {

/// The block that AES-256 under `key` makes of `block`.
pub uninterp spec fn aes256_block(key: Seq<u8>, block: Seq<u8>) -> [u8; 16];

/// `aes::Aes256::new` followed by `encrypt_block`: the contract says only that the result is a
/// function of the key and the block, which `aes256_block` names.
#[verifier::external_body]
fn aes256_encrypt(key: &[u8; 32], block: &[u8; 16]) -> (out: [u8; 16])
    ensures
        out == aes256_block(key@, block@),
{
    let cipher = Aes256::new(GenericArray::from_slice(key));
    let mut out = *block;
    cipher.encrypt_block(GenericArray::from_mut_slice(&mut out));
    out
}

/// Byte `position` of the key stream under `key`: the stream is the concatenation of the
/// encryptions of the 16-byte big-endian counters 0, 1, 2, ...
pub open spec fn key_stream(key: Seq<u8>, position: nat) -> u8 {
    aes256_block(key, be_bytes(position / 16, 16))@[(position % 16) as int]
}

/// What counter mode makes of `data` when the key stream starts at `position`.
pub open spec fn ctr(key: Seq<u8>, position: nat, data: Seq<u8>) -> Seq<u8> {
    Seq::new(data.len(), |i: int| data[i] ^ key_stream(key, (position + i) as nat))
}

/// The bytes `s`, read as a big-endian number, plus one; the carry out of the first byte is lost.
pub open spec fn incremented(s: Seq<u8>) -> Seq<u8>
    decreases s.len(),
{
    if s.len() == 0 {
        s
    } else if s.last() < 255 {
        s.drop_last().push((s.last() + 1) as u8)
    } else {
        incremented(s.drop_last()).push(0)
    }
}

pub proof fn lemma_incremented(n: nat, width: nat)
    ensures
        incremented(be_bytes(n, width)) == be_bytes(n + 1, width),
    decreases width,
{
    if width > 0 {
        let w = (width - 1) as nat;
        lemma_be_bytes_len(n / 256, w);
        let s = be_bytes(n, width);
        assert(s.drop_last() =~= be_bytes(n / 256, w));
        lemma_incremented(n / 256, w);
        if n % 256 < 255 {
            assert((n + 1) / 256 == n / 256);
        } else {
            assert((n + 1) / 256 == n / 256 + 1);
            assert((n + 1) % 256 == 0);
        }
    }
}

/// Adds one to the big-endian counter, wrapping around after the last value.
pub fn increment_be(counter: &mut [u8; 16])
    ensures
        final(counter)@ == be_bytes(be_nat(old(counter)@) + 1, 16),
{
    let ghost start = counter@;
    let mut i: usize = 16;
    proof {
        lemma_be_bytes_of_be_nat(start);
        lemma_incremented(be_nat(start), 16);
        assert(start.take(16) =~= start);
        assert(start =~= counter@.take(16) + counter@.skip(16));
        assert(incremented(start) =~= incremented(counter@.take(16)) + counter@.skip(16));
    }
    while i > 0
        invariant_except_break
            i <= 16,
            counter@.len() == 16,
            incremented(start) == incremented(counter@.take(i as int)) + counter@.skip(i as int),
        ensures
            counter@ == incremented(start),
        decreases i,
    {
        i -= 1;
        let ghost before = counter@;
        let byte = counter[i];
        assert(before.take(i + 1).drop_last() =~= before.take(i as int));
        assert(before.take(i + 1).last() == byte);
        if byte < 255 {
            counter[i] = byte + 1;
            assert(counter@ =~= before.take(i as int).push((byte + 1) as u8) + before.skip(i + 1));
            break;
        }
        counter[i] = 0;
        assert(counter@.take(i as int) =~= before.take(i as int));
        assert(counter@.skip(i as int) =~= seq![0u8] + before.skip(i + 1));
        assert(incremented(start) =~= incremented(before.take(i as int)) + counter@.skip(i as int));
        assert(i == 0 ==> counter@.take(0) + counter@.skip(0) =~= counter@);
    }
}

/// A counter-mode cipher and its place in the key stream.
pub struct AesCtr {
    key: [u8; 32],
    counter: [u8; 16],
    block: [u8; 16],
    offset: usize,
    position: Ghost<nat>,
}

impl AesCtr {
    /// The cipher's key.
    pub closed spec fn key(self) -> Seq<u8> {
        self.key@
    }

    /// Where in the key stream the next byte is taken from.
    pub closed spec fn position(self) -> nat {
        self.position@
    }

    #[verifier::type_invariant]
    pub closed spec fn wf(self) -> bool {
        let p = self.position@;
        &&& self.offset <= 16
        &&& self.offset == 16 ==> p % 16 == 0 && self.counter@ == be_bytes(p / 16, 16)
        &&& self.offset < 16 ==> {
            &&& p % 16 == self.offset
            &&& self.counter@ == be_bytes(p / 16 + 1, 16)
            &&& self.block == aes256_block(self.key@, be_bytes(p / 16, 16))
        }
    }

    /// A cipher whose first block encrypts `iv`.
    pub fn new(key: &[u8; 32], iv: &[u8; 16]) -> (cipher: Self)
        ensures
            cipher.key() == key@,
            cipher.position() == 16 * be_nat(iv@),
    {
        proof {
            lemma_be_bytes_of_be_nat(iv@);
            assert((16 * be_nat(iv@)) / 16 == be_nat(iv@));
        }
        AesCtr {
            key: *key,
            counter: *iv,
            block: [0u8; 16],
            offset: 16,
            position: Ghost(16 * be_nat(iv@)),
        }
    }

    /// Encrypts or decrypts `data` in place with the next bytes of the key stream.
    pub fn apply(&mut self, data: &mut [u8])
        ensures
            final(data)@ == ctr(old(self).key(), old(self).position(), old(data)@),
            final(self).key() == old(self).key(),
            final(self).position() == old(self).position() + old(data)@.len(),
    {
        proof {
            use_type_invariant(&*self);
        }
        let ghost start = self.position@;
        let ghost input = data@;
        let key: [u8; 32] = self.key;
        let mut counter: [u8; 16] = self.counter;
        let mut block: [u8; 16] = self.block;
        let mut offset: usize = self.offset;
        let mut i: usize = 0;
        while i < data.len()
            invariant
                i <= data@.len(),
                data@.len() == input.len(),
                offset <= 16,
                offset == 16 ==> (start + i) % 16 == 0 && counter@ == be_bytes(
                    ((start + i) / 16) as nat,
                    16,
                ),
                offset < 16 ==> {
                    &&& (start + i) % 16 == offset
                    &&& counter@ == be_bytes(((start + i) / 16 + 1) as nat, 16)
                    &&& block == aes256_block(key@, be_bytes(((start + i) / 16) as nat, 16))
                },
                forall|k: int|
                    0 <= k < i ==> data@[k] == input[k] ^ key_stream(key@, (start + k) as nat),
                forall|k: int| i <= k < input.len() ==> data@[k] == input[k],
            decreases input.len() - i,
        {
            if offset == 16 {
                block = aes256_encrypt(&key, &counter);
                proof {
                    lemma_next_counter(((start + i) / 16) as nat, counter@);
                }
                increment_be(&mut counter);
                offset = 0;
            }
            let byte: u8 = data[i] ^ block[offset];
            data[i] = byte;
            offset += 1;
            i += 1;
        }
        proof {
            assert(data@ =~= ctr(key@, start, input));
        }
        *self = AesCtr {
            key,
            counter,
            block,
            offset,
            position: Ghost((start + input.len()) as nat),
        };
    }
}

proof fn lemma_next_counter(n: nat, counter: Seq<u8>)
    requires
        counter == be_bytes(n, 16),
    ensures
        be_bytes(be_nat(counter) + 1, 16) == be_bytes(n + 1, 16),
{
    lemma_be_bytes_len(n, 16);
    lemma_be_bytes_of_be_nat(counter);
    lemma_incremented(n, 16);
    lemma_incremented(be_nat(counter), 16);
}

/// Running counter mode twice from the same place gives the data back.
pub proof fn law_ctr_is_its_own_inverse(key: Seq<u8>, position: nat, data: Seq<u8>)
    ensures
        ctr(key, position, ctr(key, position, data)) == data,
{
    assert forall|i: int| 0 <= i < data.len() implies ctr(key, position, ctr(key, position, data))[i]
        == data[i] by {
        let a = data[i];
        let b = key_stream(key, (position + i) as nat);
        assert((a ^ b) ^ b == a) by (bit_vector);
    }
    assert(ctr(key, position, ctr(key, position, data)) =~= data);
}

/// Data may be fed to the cipher in pieces: the pieces come out as the whole would have.
pub proof fn law_ctr_streams(key: Seq<u8>, position: nat, first: Seq<u8>, second: Seq<u8>)
    ensures
        ctr(key, position, first + second) == ctr(key, position, first) + ctr(
            key,
            position + first.len(),
            second,
        ),
{
    assert(ctr(key, position, first + second) =~= ctr(key, position, first) + ctr(
        key,
        position + first.len(),
        second,
    ));
}

} // verus!
