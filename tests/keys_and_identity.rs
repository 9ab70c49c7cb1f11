use vetkd_notes::{caller_name, derivation_id, encode_key, greet, NoteError};

#[test]
fn derivation_id_is_fixed_width_id_then_owner() {
    let d = derivation_id(0x0102, &"ab".to_string());
    let mut expected = vec![0u8; 14];
    expected.extend_from_slice(&[1, 2, b'a', b'b']);
    assert_eq!(d, expected);
    assert_eq!(derivation_id(u128::MAX, &String::new()), vec![0xffu8; 16]);
}

#[test]
fn key_is_lowercase_hex() {
    assert_eq!(encode_key(&vec![0x0f, 0xa0, 0x00, 0xff]), "0fa000ff");
    assert_eq!(encode_key(&vec![]), "");
}

#[test]
fn anonymous_caller_is_refused() {
    assert_eq!(caller_name(&vec![4]), Err(NoteError::Unauthenticated));
    assert_eq!(caller_name(&vec![0u8; 30]), Err(NoteError::Unauthenticated));
}

#[test]
fn caller_name_is_principal_text() {
    assert_eq!(caller_name(&vec![]), Ok("aaaaa-aa".to_string()));
    assert_eq!(caller_name(&vec![4, 4]).map(|t| t.is_empty()), Ok(false));
}

#[test]
fn greeting() {
    assert_eq!(greet("bob".to_string()), "Hello, bob!");
}
