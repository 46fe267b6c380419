use consistent_hashing::hash;

#[test]
fn test_hash() {
    for (key, want) in vec![
        ("", 154),
        ("0", 234),
        ("1", 85),
        ("00", 80),
        ("01", 112),
        ("0123-4567-89ab-cdef", 128),
        ("0123-4567-89ab-cdee", 163),
        ("1234-5678-90ab-cdef", 54),
        ("abcd-ef12-3456-7890", 236),
    ] {
        let got = hash(key);
        assert_eq!(want, got, "key: {}", key);
    }
}

#[test]
fn test_hash_deterministic() {
    for key in ["", "alpha", "beta", "a slightly longer key"] {
        assert_eq!(hash(key), hash(key));
    }
}

#[test]
fn test_hash_below_modulus() {
    for key in ["", "0", "1", "hello", "world", "consistent hashing"] {
        assert!(hash(key) < 255);
    }
}
