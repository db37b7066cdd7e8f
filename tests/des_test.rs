use block_cipher::des;

// plaintext = "123456ABCD132536"
// key = "AABB09182736CCDD"
// initial permutation = "14A7D67818CA18AD"
// cipher text = "C0B7A8D05F3A829C"

#[test]
fn des_test_should_encrypt_correctly() {
    let input = [0x12, 0x34, 0x56, 0xab, 0xcd, 0x13, 0x25, 0x36];
    let key = [0xaa, 0xbb, 0x09, 0x18, 0x27, 0x36, 0xcc, 0xdd];
    let c: [u8; 8] = des::encrypt(input, key);
    assert_eq!([0xc0, 0xb7, 0xa8, 0xd0, 0x5f, 0x3a, 0x82, 0x9c], c);
}

#[test]
fn should_decrypt_correctly() {
    let input = [0x12, 0x34, 0x56, 0xab, 0xcd, 0x13, 0x25, 0x36];
    let key = [0xaa, 0xbb, 0x09, 0x18, 0x27, 0x36, 0xcc, 0xdd];
    let c: [u8; 8] = des::encrypt(input, key);
    let d: [u8; 8] = des::decrypt(c, key);
    assert_eq!(input, d);
}
