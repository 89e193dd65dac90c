//! The name-hash function, checked against known values.

use icon_cache::icon_str_hash;

#[test]
fn icon_str_hash_empty() {
    assert_eq!(icon_str_hash(b""), 0);
}

#[test]
fn icon_str_hash_hello_world() {
    assert_eq!(icon_str_hash(b"hello world"), 1794106052);
}

#[test]
fn icon_str_hash_sym() {
    assert_eq!(icon_str_hash(b"preferences-other-symbolic") % 251, 243);
}

#[test]
fn icon_str_hash_single_byte_is_byte() {
    assert_eq!(icon_str_hash(b"a"), b'a' as u32);
    assert_eq!(icon_str_hash(b"\xff"), 255);
}

#[test]
fn icon_str_hash_step_recurrence() {
    // Dropping the last byte relates the two hashes by h * 31 + byte,
    // with 32-bit wraparound.
    for s in [
        &b"hello world"[..],
        &b"mpv"[..],
        &b"preferences-other-symbolic"[..],
        &b"\xff\xfe\xfd\xfc\xfb\xfa\xf9\xf8\xf7\xf6\xf5\xf4\xf3\xf2\xf1"[..],
    ] {
        for cut in 1..=s.len() {
            let whole = icon_str_hash(&s[..cut]);
            let prefix = icon_str_hash(&s[..cut - 1]);
            let expect = prefix.wrapping_mul(31).wrapping_add(s[cut - 1] as u32);
            assert_eq!(whole, expect);
        }
    }
}

#[test]
fn icon_str_hash_wraps_at_32_bits() {
    // A long input overflows 32 bits many times over; the result must
    // still be the wrapped value, recomputed here independently.
    let name: Vec<u8> = (0..1000u32).map(|i| (i % 251) as u8 + 1).collect();
    let mut h: u32 = 0;
    for &p in &name {
        h = h.wrapping_mul(31).wrapping_add(p as u32);
    }
    assert_eq!(icon_str_hash(&name), h);
}
