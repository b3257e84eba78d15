use digmake::player::{offline_player_uuid, uuid_from_md5};

#[test]
fn offline_player_has_the_known_identifier() {
    // b4bcabdd-6041-360c-84de-bb50c9a8b0b6
    assert_eq!(
        offline_player_uuid("OfflinePlayer:dzil1234"),
        [
            0xb4, 0xbc, 0xab, 0xdd, 0x60, 0x41, 0x36, 0x0c, 0x84, 0xde, 0xbb, 0x50, 0xc9, 0xa8,
            0xb0, 0xb6
        ]
    );
}

#[test]
fn the_empty_name_has_the_marked_digest_of_nothing() {
    // The digest of no bytes at all is d41d8cd98f00b204e9800998ecf8427e.
    assert_eq!(
        offline_player_uuid(""),
        [
            0xd4, 0x1d, 0x8c, 0xd9, 0x8f, 0x00, 0x32, 0x04, 0xa9, 0x80, 0x09, 0x98, 0xec, 0xf8,
            0x42, 0x7e
        ]
    );
}

#[test]
fn only_version_and_variant_are_marked() {
    let mut expected = [0xFFu8; 16];
    expected[6] = 0x3F;
    expected[8] = 0xBF;
    assert_eq!(uuid_from_md5([0xFF; 16]), expected);
    let mut expected = [0u8; 16];
    expected[6] = 0x30;
    expected[8] = 0x80;
    assert_eq!(uuid_from_md5([0; 16]), expected);
}
