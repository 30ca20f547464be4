use machiavelli::encode::{decrypt_str, encrypt_str, xor};

#[test]
fn xor_repeats_the_password() {
    let plaintext: Vec<u8> = vec![1, 2, 3, 4, 5];
    let password: Vec<u8> = vec![0, 1];
    let cipher = xor(&plaintext, &password);
    assert_eq!(vec![1, 3, 3, 5, 5], cipher);
}

#[test]
fn xor_twice_gives_the_text_back() {
    let plaintext: Vec<u8> = vec![10, 255, 0, 77, 13, 42, 7];
    let password: Vec<u8> = vec![9, 200, 31];
    let cipher = xor(&plaintext, &password);
    assert_ne!(plaintext, cipher);
    assert_eq!(plaintext, xor(&cipher, &password));
}

#[test]
fn xor_of_nothing_needs_no_password() {
    assert_eq!(xor(&[], &[]), Vec::<u8>::new());
}

#[test]
fn decrypt_gives_the_message_back() {
    let message = "I am a string literal!";
    let password = "passw0rd";
    let cipher = encrypt_str(message, password);
    let decrypted = decrypt_str(&cipher, password).unwrap();
    assert_eq!(message.to_string(), decrypted);
}

#[test]
fn decrypt_fails_on_bytes_that_are_no_text() {
    let cipher: Vec<u8> = vec![0xff, 0xfe];
    assert!(decrypt_str(&cipher, "\0").is_err());
}
