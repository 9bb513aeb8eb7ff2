//! The cipher chain of the binary segment: Blowfish, block by block, with
//! the previous plaintext block fed forward.
//!
//! This is not cipher-block chaining. Each eight-byte block is decrypted on
//! its own and then XORed with the plaintext that the block before it gave;
//! the first block is XORed with zeros.

use blowfish::cipher::generic_array::GenericArray;
use blowfish::cipher::BlockDecrypt;
use blowfish::cipher::KeyInit;
use blowfish::Blowfish;
use byteorder::BigEndian;
use crate::error::CryptoError;
use vstd::prelude::*;
use vstd::slice::slice_subrange;

verus! {

/// The size of a cipher block, in bytes.
pub const BLOCK_SIZE: usize = 8;

/// The key that every replay is encrypted with.
pub const REPLAY_KEY: [u8; 16] = [
    0xDE, 0x72, 0xBE, 0xA0, 0xDE, 0x04, 0xBE, 0xB1,
    0xDE, 0xFE, 0xBE, 0xEF, 0xDE, 0xAD, 0xBE, 0xEF,
];

/// A Blowfish cipher state, expanded once from a key and then used for
/// every block. Verus cannot be told of `Blowfish<T>` itself, whose
/// parameter is bound by a trait of `byteorder`, so the state is held here
/// out of its sight.
#[verifier::external_body]
pub struct BlockCipher {
    state: Blowfish<BigEndian>,
}

/// The key that a cipher state was expanded from.
pub uninterp spec fn cipher_key(cipher: BlockCipher) -> Seq<u8>;

/// The Blowfish decryption of one eight-byte block under a key, the block
/// read and written as two big-endian words.
pub uninterp spec fn blowfish_decrypt(key: Seq<u8>, block: Seq<u8>) -> Seq<u8>;

/// Calls `Blowfish::<BigEndian>::new_from_slice`, which refuses a key
/// shorter than 4 or longer than 56 bytes and otherwise expands the key
/// into a cipher state.
#[verifier::external_body]
fn new_cipher(key: &[u8]) -> (r: Option<BlockCipher>)
    ensures
        r.is_some() <==> 4 <= key@.len() <= 56,
        r matches Some(cipher) ==> cipher_key(cipher) == key@,
{
    match Blowfish::<BigEndian>::new_from_slice(key) {
        Ok(state) => Some(BlockCipher { state }),
        Err(_) => None,
    }
}

/// Calls `BlockDecrypt::decrypt_block` on a copy of `block`, made with
/// `GenericArray::clone_from_slice`, which panics unless the slice has
/// eight bytes: the result is the decryption of that single block under
/// the key of `cipher`, with no chaining.
#[verifier::external_body]
fn decrypt_block(cipher: &BlockCipher, block: &[u8]) -> (out: [u8; 8])
    requires
        block@.len() == 8,
    ensures
        out@ == blowfish_decrypt(cipher_key(*cipher), block@),
{
    let mut buf = GenericArray::clone_from_slice(block);
    cipher.state.decrypt_block(&mut buf);
    buf.into()
}

/// Byte-wise XOR of two blocks.
pub open spec fn xor_blocks(a: Seq<u8>, b: Seq<u8>) -> Seq<u8> {
    Seq::new(8, |j: int| a[j] ^ b[j])
}

/// The block of eight zero bytes that the first block is XORed with.
pub open spec fn zero_block() -> Seq<u8> {
    Seq::new(8, |j: int| 0u8)
}

/// The `i`-th eight-byte block of `s`.
pub open spec fn block_at(s: Seq<u8>, i: int) -> Seq<u8> {
    s.subrange(8 * i, 8 * i + 8)
}

/// The `i`-th plaintext block of the chain over ciphertext `ct`; for a
/// negative `i`, the zero block.
pub open spec fn chain_block(key: Seq<u8>, ct: Seq<u8>, i: int) -> Seq<u8>
    decreases i + 1,
{
    if i < 0 {
        zero_block()
    } else {
        xor_blocks(blowfish_decrypt(key, block_at(ct, i)), chain_block(key, ct, i - 1))
    }
}

/// The first `n` bytes of the chain's plaintext.
pub open spec fn chain_prefix(key: Seq<u8>, ct: Seq<u8>, n: nat) -> Seq<u8> {
    Seq::new(n, |j: int| chain_block(key, ct, j / 8)[j % 8])
}

/// The plaintext of a block-aligned ciphertext.
pub open spec fn chain_decrypt(key: Seq<u8>, ct: Seq<u8>) -> Seq<u8> {
    chain_prefix(key, ct, ct.len())
}

/// Every plaintext block is the decryption of its own ciphertext block
/// XORed with the plaintext block before it, and the first one with zeros.
pub proof fn lemma_chain_feeds_plaintext_forward(key: Seq<u8>, ct: Seq<u8>, i: int)
    requires
        ct.len() % 8 == 0,
        0 <= i < ct.len() / 8,
    ensures
        block_at(chain_decrypt(key, ct), i) == xor_blocks(
            blowfish_decrypt(key, block_at(ct, i)),
            if i == 0 {
                zero_block()
            } else {
                block_at(chain_decrypt(key, ct), i - 1)
            },
        ),
{
    lemma_block_of_chain(key, ct, i);
    if i > 0 {
        lemma_block_of_chain(key, ct, i - 1);
    } else {
        assert(chain_block(key, ct, -1) == zero_block());
    }
}

/// The `i`-th block of the plaintext is `chain_block` at `i`.
proof fn lemma_block_of_chain(key: Seq<u8>, ct: Seq<u8>, i: int)
    requires
        0 <= i,
        8 * i + 8 <= ct.len(),
    ensures
        block_at(chain_decrypt(key, ct), i) == chain_block(key, ct, i),
{
    let b = block_at(chain_decrypt(key, ct), i);
    assert forall|j: int| 0 <= j < 8 implies b[j] == chain_block(key, ct, i)[j] by {
        assert((8 * i + j) / 8 == i);
        assert((8 * i + j) % 8 == j);
    }
    assert(b =~= chain_block(key, ct, i));
}

/// Decrypts the binary segment of a replay with the fixed replay key.
pub fn decrypt_replay(encrypted_data: &[u8]) -> (r: Result<Vec<u8>, CryptoError>)
    ensures
        encrypted_data@.len() % 8 != 0 ==> r == Err::<Vec<u8>, CryptoError>(
            CryptoError::BadLength,
        ),
        encrypted_data@.len() % 8 == 0 ==> (r matches Ok(plain) && plain@ == chain_decrypt(
            REPLAY_KEY@,
            encrypted_data@,
        )),
{
    let key = REPLAY_KEY;
    let made = new_cipher(key.as_slice());
    let cipher = made.unwrap();
    let n = encrypted_data.len();
    if n % BLOCK_SIZE != 0 {
        return Err(CryptoError::BadLength);
    }
    let ghost k = REPLAY_KEY@;
    let ghost ct = encrypted_data@;
    let mut plain: Vec<u8> = Vec::with_capacity(n);
    let mut previous: [u8; 8] = [0u8; 8];
    let mut start: usize = 0;
    assert(previous@ =~= zero_block());
    while start < n
        invariant
            n == encrypted_data@.len(),
            ct == encrypted_data@,
            k == cipher_key(cipher),
            n % 8 == 0,
            start % 8 == 0,
            start <= n,
            plain@ == chain_prefix(k, ct, start as nat),
            previous@ == chain_block(k, ct, start / 8 - 1),
        decreases n - start,
    {
        let block = decrypt_block(&cipher, slice_subrange(encrypted_data, start, start + 8));
        let ghost i = start as int / 8;
        let ghost before = plain@;
        let ghost fed = previous@;
        assert(encrypted_data@.subrange(start as int, start + 8) == block_at(ct, i));
        let mut j: usize = 0;
        while j < 8
            invariant
                j <= 8,
                block@.len() == 8,
                fed.len() == 8,
                plain@.len() == before.len() + j,
                plain@.take(before.len() as int) == before,
                forall|m: int| 0 <= m < j ==> plain@[before.len() + m] == block@[m] ^ fed[m],
                forall|m: int| 0 <= m < j ==> previous@[m] == block@[m] ^ fed[m],
                forall|m: int| j <= m < 8 ==> previous@[m] == fed[m],
            decreases 8 - j,
        {
            let byte = block[j] ^ previous[j];
            previous[j] = byte;
            plain.push(byte);
            j = j + 1;
        }
        proof {
            assert(previous@ =~= chain_block(k, ct, i));
            assert forall|m: int| 0 <= m < start + 8 implies plain@[m] == chain_prefix(
                k,
                ct,
                (start + 8) as nat,
            )[m] by {
                if m < start {
                    assert(plain@[m] == plain@.take(before.len() as int)[m]);
                } else {
                    assert(m / 8 == i);
                    assert(m % 8 == m - start);
                    assert(plain@[before.len() + (m - start)] == previous@[m - start]);
                }
            }
            assert(plain@ =~= chain_prefix(k, ct, (start + 8) as nat));
        }
        start = start + 8;
    }
    Ok(plain)
}

} // verus!
