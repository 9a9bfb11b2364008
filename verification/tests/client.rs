use blindspot::client::{announced_ip, hash_ip, to_hex};

#[test]
fn announced_address_is_first_field_trimmed() {
    assert_eq!(announced_ip("203.0.113.7"), "203.0.113.7");
    assert_eq!(announced_ip(" 203.0.113.7 , 10.0.0.1, 10.0.0.2"), "203.0.113.7");
    assert_eq!(announced_ip("\t198.51.100.4\n"), "198.51.100.4");
    assert_eq!(announced_ip("\u{3000}a b\u{2009},c"), "a b");
    assert_eq!(announced_ip(",10.0.0.1"), "");
    assert_eq!(announced_ip("   "), "");
    assert_eq!(announced_ip(""), "");
}

#[test]
fn hex_notation() {
    assert_eq!(to_hex(&[]), "");
    assert_eq!(to_hex(&[0x00, 0xff, 0x10, 0x9a]), "00ff109a");
}

#[test]
fn ip_hash_is_sha256_hex() {
    assert_eq!(hash_ip("127.0.0.1"), "12ca17b49af2289436f303e0166030a21e525d266e209267433801a8fd4071a0");
    assert_eq!(hash_ip(""), "e3b0c44298fc1c149afbf4c8996fb92427ae41e4649b934ca495991b7852b855");
    let h = hash_ip("203.0.113.7");
    assert_eq!(h.len(), 64);
    assert_ne!(h, "203.0.113.7");
}
