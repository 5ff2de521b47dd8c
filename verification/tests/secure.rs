use zerotier_system_service::secure_eq;

#[test]
fn equal_slices_compare_equal() {
    assert!(secure_eq(&[1u8, 2, 3], &[1u8, 2, 3]));
    assert!(secure_eq(b"secret", b"secret"));
}

#[test]
fn empty_slices_compare_equal() {
    let nothing: [u8; 0] = [];
    assert!(secure_eq(&nothing, &nothing));
}

#[test]
fn a_difference_in_any_position_is_found() {
    assert!(!secure_eq(&[0u8, 2, 3], &[1u8, 2, 3]));
    assert!(!secure_eq(&[1u8, 0, 3], &[1u8, 2, 3]));
    assert!(!secure_eq(&[1u8, 2, 0], &[1u8, 2, 3]));
    assert!(!secure_eq(&[0x80u8], &[0x00u8]));
    assert!(!secure_eq(&[0x01u8], &[0x00u8]));
}

#[test]
fn differences_do_not_cancel_each_other() {
    assert!(!secure_eq(&[1u8, 1], &[0u8, 0]));
    assert!(!secure_eq(&[0xffu8, 0x0f], &[0x0fu8, 0xff]));
}

#[test]
fn slices_of_different_length_differ() {
    assert!(!secure_eq(&[1u8, 2, 3], &[1u8, 2]));
    assert!(!secure_eq(&[], &[0u8]));
    assert!(!secure_eq(&[0u8, 0], &[0u8]));
}

#[test]
fn agrees_with_plain_equality_on_all_byte_pairs() {
    for a in 0..=255u8 {
        for b in 0..=255u8 {
            assert_eq!(secure_eq(&[a], &[b]), a == b);
        }
    }
}
