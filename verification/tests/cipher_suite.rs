use algokit::cipher::{caesar_decrypt, caesar_encrypt, vigenere_decrypt, vigenere_encrypt};

#[test]
fn caesar_cypher() {
    let text = "abc ABC, xyz XYZ 01";
    let expected = "bcd BCD, yza YZA 01";

    let encrypted = caesar_encrypt(&text, 1).unwrap();
    let decrypted = caesar_decrypt(&encrypted, 1).unwrap();

    assert_eq!(expected, encrypted);
    assert_eq!(text, decrypted);
}

#[test]
fn vigenere_cypher() {
    let text = "abc ABC, xyz XYZ 01";
    let expected = "cjr HFT, zgo ECQ 01";

    let encrypted = vigenere_encrypt(text, "cipher").unwrap();
    let decrypted = vigenere_decrypt(encrypted.as_str(), "cipher").unwrap();

    assert_eq!(expected, encrypted);
    assert_eq!(text, decrypted);
}

#[test]
fn caesar_rejects_bad_input() {
    assert_eq!(None, caesar_encrypt("caf\u{e9}", 1));
    assert_eq!(None, caesar_encrypt("abc", 26));
    assert_eq!(None, caesar_decrypt("caf\u{e9}", 1));
    assert_eq!(None, caesar_decrypt("abc", 26));
}

#[test]
fn vigenere_rejects_non_ascii() {
    assert_eq!(None, vigenere_encrypt("caf\u{e9}", "key"));
    assert_eq!(None, vigenere_encrypt("abc", "cl\u{e9}"));
    assert_eq!(None, vigenere_decrypt("caf\u{e9}", "key"));
}

#[test]
fn caesar_wraps_alphabet() {
    assert_eq!("abc", caesar_encrypt("xyz", 3).unwrap());
    assert_eq!("XYZ", caesar_decrypt("ABC", 3).unwrap());
}
