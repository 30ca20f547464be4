//! The keystream that hides a saved game from a casual look. It is no
//! protection.

use crate::errors::BytesToStringError;
use crate::text::string_from_utf8;
use vstd::prelude::*;
use vstd::string::StringSliceAdditionalSpecFns;
use vstd::utf8::{decode_utf8, valid_utf8};

verus! {

/// Each byte of the text combined with the byte of the password that stands
/// over it, the password being repeated as often as needed.
pub open spec fn xor_bytes(plaintext: Seq<u8>, password: Seq<u8>) -> Seq<u8> {
    Seq::new(plaintext.len(), |i: int| plaintext[i] ^ password[i % (password.len() as int)])
}

/// Applying the same password twice gives the text back.
pub proof fn lemma_xor_twice(plaintext: Seq<u8>, password: Seq<u8>)
    requires
        password.len() > 0,
    ensures
        xor_bytes(xor_bytes(plaintext, password), password) == plaintext,
{
    let once = xor_bytes(plaintext, password);
    let twice = xor_bytes(once, password);
    assert forall|i: int| 0 <= i < plaintext.len() implies twice[i] == plaintext[i] by {
        let a = plaintext[i];
        let b = password[i % (password.len() as int)];
        assert((a ^ b) ^ b == a) by (bit_vector);
    }
    assert(twice =~= plaintext);
}

/// Combines a text with a password, byte by byte. A text that is not empty
/// needs a password that is not empty.
pub fn xor(plaintext: &[u8], password: &[u8]) -> (cipher: Vec<u8>)
    requires
        plaintext@.len() > 0 ==> password@.len() > 0,
    ensures
        cipher@ == xor_bytes(plaintext@, password@),
{
    let mut cipher: Vec<u8> = Vec::new();
    let n: usize = password.len();
    let len: usize = plaintext.len();
    let mut i: usize = 0;
    while i < len
        invariant
            len == plaintext@.len(),
            n == password@.len(),
            len > 0 ==> n > 0,
            i <= len,
            cipher@.len() == i,
            forall|k: int| 0 <= k < i ==> #[trigger] cipher@[k] == plaintext@[k] ^ password@[k % (n as int)],
        decreases len - i,
    {
        cipher.push(plaintext[i] ^ password[i % n]);
        i += 1;
    }
    assert(cipher@ =~= xor_bytes(plaintext@, password@));
    cipher
}

/// Hides a message under a password.
pub fn encrypt_str(message: &str, password: &str) -> (cipher: Vec<u8>)
    requires
        message.spec_bytes().len() > 0 ==> password.spec_bytes().len() > 0,
    ensures
        cipher@ == xor_bytes(message.spec_bytes(), password.spec_bytes()),
{
    let plaintext_u8 = message.as_bytes();
    let password_u8 = password.as_bytes();
    xor(plaintext_u8, password_u8)
}

/// Brings a hidden message back. Fails where what comes out is no text.
pub fn decrypt_str(cipher: &[u8], password: &str) -> (res: Result<String, BytesToStringError>)
    requires
        cipher@.len() > 0 ==> password.spec_bytes().len() > 0,
    ensures
        res is Ok <==> valid_utf8(xor_bytes(cipher@, password.spec_bytes())),
        res matches Ok(message) ==> message@ == decode_utf8(
            xor_bytes(cipher@, password.spec_bytes()),
        ),
{
    let password_u8 = password.as_bytes();
    match string_from_utf8(xor(cipher, password_u8)) {
        Ok(s) => Ok(s),
        Err(_) => Err(BytesToStringError {  }),
    }
}

/// A message that was hidden under a password comes back under the same
/// password.
pub proof fn lemma_decrypt_encrypt(message: Seq<char>, password: Seq<u8>)
    requires
        password.len() > 0,
    ensures
        valid_utf8(
            xor_bytes(xor_bytes(vstd::utf8::encode_utf8(message), password), password),
        ),
        decode_utf8(xor_bytes(xor_bytes(vstd::utf8::encode_utf8(message), password), password))
            == message,
{
    lemma_xor_twice(vstd::utf8::encode_utf8(message), password);
    vstd::utf8::encode_utf8_valid_utf8(message);
    vstd::utf8::encode_utf8_decode_utf8(message);
}

} // verus!
