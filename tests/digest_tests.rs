use kadstore::digest::{be_less, bytes_equal, leading_zeroes, same_id, xor_distance};
use kadstore::fs::hash_file as sha256;

fn hex32(s: &str) -> [u8; 32] {
    let v = hex::decode(s).unwrap();
    let mut a = [0u8; 32];
    a.copy_from_slice(&v);
    a
}

#[test]
fn sha256_of_hello() {
    let d = sha256(b"hello");
    assert_eq!(
        d,
        hex32("2cf24dba5fb0a30e26e83b2ac5b9e29e1b161e5c1fa7425e73043362938b9824")
    );
}

#[test]
fn sha256_of_empty() {
    let d = sha256(b"");
    assert_eq!(
        d,
        hex32("e3b0c44298fc1c149afbf4c8996fb92427ae41e4649b934ca495991b7852b855")
    );
}

#[test]
fn xor_distance_is_bytewise() {
    let mut a = [0u8; 32];
    let mut b = [0u8; 32];
    a[0] = 0b1010_1010;
    b[0] = 0b0101_0101;
    a[31] = 7;
    b[31] = 7;
    let d = xor_distance(&a, &b);
    assert_eq!(d[0], 0xff);
    assert_eq!(d[31], 0);
    assert_eq!(xor_distance(&a, &a), [0u8; 32]);
}

#[test]
fn xor_distance_full_width() {
    // bytes beyond the sixteenth still count
    let a = [0u8; 32];
    let mut b = [0u8; 32];
    b[20] = 1;
    let d = xor_distance(&a, &b);
    assert_eq!(d[20], 1);
    assert!(be_less(&[0u8; 32], &d));
}

#[test]
fn leading_zero_counts() {
    assert_eq!(leading_zeroes(&[0u8; 32]), 256);
    assert_eq!(leading_zeroes(&[0xffu8; 32]), 0);
    let mut x = [0u8; 32];
    x[1] = 0x10;
    assert_eq!(leading_zeroes(&x), 11);
    let mut y = [0u8; 32];
    y[31] = 1;
    assert_eq!(leading_zeroes(&y), 255);
}

#[test]
fn big_endian_order() {
    let mut a = [0u8; 32];
    let mut b = [0u8; 32];
    a[0] = 1;
    b[31] = 255;
    assert!(be_less(&b, &a));
    assert!(!be_less(&a, &b));
    assert!(!be_less(&a, &a));
}

#[test]
fn equality_helpers() {
    assert!(same_id(&[3u8; 32], &[3u8; 32]));
    assert!(!same_id(&[3u8; 32], &[4u8; 32]));
    assert!(bytes_equal(b"abc", b"abc"));
    assert!(!bytes_equal(b"abc", b"abd"));
    assert!(!bytes_equal(b"abc", b"ab"));
}
