use reccak::utils::add_padding;
use reccak::utils::apply_padding;
use reccak::BLOCK_SIZE;

#[test]
fn apply_padding_delim_only() {
    let padded = apply_padding(&[0x80]);
    assert_eq!(
        padded,
        &[
            0x80, 0x80, 0x00, 0x00, 0x00, 0x00, 0x00, 0x00, 0x00, 0x00, 0x00, 0x00, 0x00, 0x00,
            0x00, 0x00, 0x00, 0x00, 0x00, 0x00,
        ]
    );
}

#[test]
fn apply_padding_single_block_small() {
    let padded = apply_padding(&[0x00, 0x01, 0x02, 0x03]);
    assert_eq!(
        padded,
        &[
            0x00, 0x01, 0x02, 0x03, 0x80, 0x00, 0x00, 0x00, 0x00, 0x00, 0x00, 0x00, 0x00, 0x00,
            0x00, 0x00, 0x00, 0x00, 0x00, 0x00,
        ]
    );
}

#[test]
fn apply_padding_single_block() {
    let padded = apply_padding(&[0x00, 0x01, 0x02, 0x03, 0x04, 0x05, 0x06]);
    assert_eq!(
        padded,
        &[
            0x00, 0x01, 0x02, 0x03, 0x04, 0x05, 0x06, 0x80, 0x00, 0x00, 0x00, 0x00, 0x00, 0x00,
            0x00, 0x00, 0x00, 0x00, 0x00, 0x00,
        ]
    );
}

#[test]
fn apply_padding_double_block_small() {
    let padded = apply_padding(&[0x00, 0x01, 0x02, 0x03, 0x04, 0x05, 0x06, 0x07]);
    assert_eq!(
        padded,
        &[
            0x00, 0x01, 0x02, 0x03, 0x04, 0x05, 0x06, 0x07, 0x80, 0x00, 0x00, 0x00, 0x00, 0x00,
            0x00, 0x00, 0x00, 0x00, 0x00, 0x00,
        ]
    );
}

#[test]
fn apply_padding_double_block() {
    let padded = apply_padding(&[0x00, 0x01, 0x02, 0x03, 0x04, 0x05, 0x06, 0x07, 0x08]);
    assert_eq!(
        padded,
        &[
            0x00, 0x01, 0x02, 0x03, 0x04, 0x05, 0x06, 0x07, 0x08, 0x80, 0x00, 0x00, 0x00, 0x00,
            0x00, 0x00, 0x00, 0x00, 0x00, 0x00,
        ]
    );
}

#[test]
fn apply_padding_empty_message_gets_whole_block() {
    let padded = apply_padding(&[]);
    let mut expected = vec![0u8; BLOCK_SIZE];
    expected[0] = 0x80;
    assert_eq!(padded, expected);
}

#[test]
fn apply_padding_one_short_of_block_fits_exactly() {
    let message = vec![0x55u8; BLOCK_SIZE - 1];
    let padded = apply_padding(&message);
    assert_eq!(padded.len(), BLOCK_SIZE);
    assert_eq!(padded[BLOCK_SIZE - 1], 0x80);
}

#[test]
fn apply_padding_full_block_gains_extra_block() {
    let message = vec![0x55u8; BLOCK_SIZE];
    let padded = apply_padding(&message);
    assert_eq!(padded.len(), 2 * BLOCK_SIZE);
    assert_eq!(padded[BLOCK_SIZE], 0x80);
    assert!(padded[BLOCK_SIZE + 1..].iter().all(|&b| b == 0));
}

#[test]
fn padding_always_grows_to_whole_blocks() {
    for len in 0..70 {
        let message = vec![0xA5u8; len];
        let padded = apply_padding(&message);
        assert_eq!(padded.len() % BLOCK_SIZE, 0, "for length {}", len);
        assert!(padded.len() > len, "for length {}", len);
        assert_eq!(&padded[..len], message.as_slice());
        assert_eq!(padded[len], 0x80);
    }
}

#[test]
fn add_padding_matches_apply_padding() {
    for len in [0usize, 1, 7, 19, 20, 21, 39, 40] {
        let message = vec![0x42u8; len];
        let mut in_place = message.clone();
        add_padding(&mut in_place);
        assert_eq!(in_place, apply_padding(&message), "for length {}", len);
    }
}
