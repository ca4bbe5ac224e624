use tally_terminal::errors::TallyError;
use tally_terminal::tally_id::{hex_val, TallyID};

#[test]
fn encode_decode_round_trips() {
    let raw: [u8; 6] = [0xA2, 0xFB, 0x44, 0x00, 0x12, 0xAB];
    let id = TallyID::from_raw_bytes(&raw).unwrap();
    assert_eq!(id.0, "A2FB440012AB");
    let back = id.to_raw_bytes().unwrap();
    assert_eq!(back, raw.to_vec());
}

#[test]
fn decode_accepts_lowercase() {
    let id = TallyID("a2fb440012ab".to_owned());
    let back = id.to_raw_bytes().unwrap();
    assert_eq!(back, vec![0xA2, 0xFB, 0x44, 0x00, 0x12, 0xAB]);
}

#[test]
fn differently_cased_forms_compare_equal() {
    let lower = TallyID("a2fb44".to_owned());
    let upper = TallyID("A2FB44".to_owned());
    assert!(lower == upper);
    assert_eq!(lower.canonical(), "A2FB44");
    assert_eq!(upper.canonical(), "A2FB44");
}

#[test]
fn different_ids_compare_unequal() {
    assert!(TallyID("A2FB44".to_owned()) != TallyID("A2FB45".to_owned()));
    assert!(TallyID("A2FB44".to_owned()) != TallyID("A2FB4".to_owned()));
}

#[test]
fn from_raw_bytes_rejects_wrong_length() {
    assert!(matches!(
        TallyID::from_raw_bytes(&[1, 2, 3]),
        Err(TallyError::MalformedID)
    ));
}

#[test]
fn from_hex_bytes_accepts_scanner_payload() {
    let id = TallyID::from_hex_bytes(b"a123456789aB").unwrap();
    assert_eq!(id.0, "A123456789AB");
}

#[test]
fn from_hex_bytes_rejects_bad_input() {
    assert!(matches!(
        TallyID::from_hex_bytes(b"A123"),
        Err(TallyError::MalformedID)
    ));
    assert!(matches!(
        TallyID::from_hex_bytes(b"A12345678_AB"),
        Err(TallyError::MalformedID)
    ));
}

#[test]
fn to_raw_bytes_rejects_non_hex_text() {
    assert!(matches!(
        TallyID("hello".to_owned()).to_raw_bytes(),
        Err(TallyError::MalformedID)
    ));
    assert!(matches!(
        TallyID("GGGGGGGGGGGG".to_owned()).to_raw_bytes(),
        Err(TallyError::MalformedID)
    ));
}

#[test]
fn hex_digit_values() {
    assert_eq!(hex_val(b'0'), Ok(0));
    assert_eq!(hex_val(b'9'), Ok(9));
    assert_eq!(hex_val(b'a'), Ok(10));
    assert_eq!(hex_val(b'f'), Ok(15));
    assert_eq!(hex_val(b'A'), Ok(10));
    assert_eq!(hex_val(b'F'), Ok(15));
    assert_eq!(hex_val(b'g'), Err(()));
    assert_eq!(hex_val(b' '), Err(()));
}
