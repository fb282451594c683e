use reccak::hash;

#[test]
fn test_hash() {
    [
        (
            "",
            [
                0xE2, 0x25, 0x5B, 0xFB, 0xD3, 0xCF, 0x86, 0xE0, 0xDB, 0xE5, 0x2A, 0xA9, 0x67,
                0x82, 0xEB, 0x8D,
            ],
        ),
        (
            "AbCxYz",
            [
                0x5A, 0x0F, 0xB1, 0xF1, 0xF0, 0x14, 0x98, 0x27, 0xC5, 0x36, 0x28, 0x0F, 0xEA,
                0xD1, 0x67, 0xD1,
            ],
        ),
        (
            "1234567890",
            [
                0x37, 0x46, 0x68, 0x9D, 0x2E, 0xD8, 0x04, 0x06, 0xEB, 0xE2, 0x03, 0x8B, 0x5F,
                0xDD, 0xF9, 0xD5,
            ],
        ),
        (
            "Ala ma kota, kot ma ale.",
            [
                0xD6, 0x62, 0xF8, 0xE0, 0x32, 0x8D, 0x46, 0xCB, 0x53, 0xCC, 0xB8, 0x9D, 0x21,
                0x9A, 0x94, 0x85,
            ],
        ),
        (
            "Ty, ktory wchodzisz, zegnaj sie z nadzieja.",
            [
                0xB5, 0x34, 0xF7, 0xEF, 0xF7, 0x14, 0x8C, 0x43, 0x20, 0x57, 0xDF, 0xD6, 0x11,
                0x38, 0x7A, 0x30,
            ],
        ),
        (
            "a".repeat(48000).as_str(),
            [
                0x07, 0x2F, 0xB0, 0x3B, 0xC3, 0xC9, 0x96, 0x50, 0x66, 0x3B, 0x2B, 0x89, 0xA6,
                0xE9, 0x9F, 0x74,
            ],
        ),
        (
            "a".repeat(48479).as_str(),
            [
                0xAA, 0x64, 0x8B, 0xAE, 0xF6, 0x95, 0x48, 0x33, 0xF9, 0x55, 0x5D, 0x55, 0xA7,
                0x97, 0xD2, 0xCB,
            ],
        ),
        (
            "a".repeat(48958).as_str(),
            [
                0x9A, 0x9C, 0x15, 0x4F, 0x81, 0x7A, 0x48, 0xE4, 0xE2, 0x8D, 0x8A, 0x8C, 0x68,
                0x7A, 0xCD, 0x60,
            ],
        ),
    ]
    .iter()
    .for_each(|(message, expected_hash)| {
        let expected_hash = expected_hash
            .chunks_exact(2)
            .map(|v| u16::from_be_bytes([v[0], v[1]]))
            .collect::<Vec<u16>>();
        let hash = hash(message.as_bytes());
        assert_eq!(hash, expected_hash, "for message {}", message,);
    });
}

#[test]
fn hash_is_deterministic() {
    let message = b"the same bytes, hashed twice";
    let first = hash(message);
    let second = hash(message);
    assert_eq!(first, second);
    let empty_first = hash(b"");
    let empty_second = hash(b"");
    assert_eq!(empty_first, empty_second);
}

#[test]
fn hash_digest_is_eight_lanes() {
    assert_eq!(hash(b"").len(), 8);
    assert_eq!(hash(b"abc").len(), 8);
}
