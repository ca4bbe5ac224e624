use tally_terminal::nfc_reader::extract_id;
use tally_terminal::parser::parse_line;
use tally_terminal::pm3::{DebouncePolicy, UidFilter};
use tally_terminal::tally_id::TallyID;

#[test]
fn frame_with_leading_garbage_yields_identifier() {
    let buffer = [
        0xFFu8, 0x02, b'A', b'1', b'2', b'3', b'4', b'5', b'6', b'7', b'8', b'9', b'A', b'B',
        0x03,
    ];
    let id = extract_id(&buffer).unwrap();
    assert_eq!(id, b"A123456789AB".to_vec());
    let tally = TallyID::from_hex_bytes(&id).unwrap();
    assert_eq!(tally.0, "A123456789AB");
}

#[test]
fn short_buffer_yields_nothing() {
    let buffer = [0x02u8, b'A', b'1', 0x03];
    assert!(extract_id(&buffer).is_none());
    assert!(extract_id(&[]).is_none());
    // thirteen bytes cannot hold a frame
    assert!(extract_id(&[0x02u8; 13]).is_none());
}

#[test]
fn buffer_without_matching_markers_yields_nothing() {
    // no start marker at all
    let no_stx = [0xAAu8; 20];
    assert!(extract_id(&no_stx).is_none());
    // a start marker whose end marker is misplaced
    let mut bad_end = [0u8; 20];
    bad_end[0] = 0x02;
    bad_end[14] = 0x03;
    assert!(extract_id(&bad_end).is_none());
}

#[test]
fn first_frame_wins() {
    let mut buffer = [0u8; 32];
    buffer[1] = 0x02;
    for (k, b) in b"AAAAAAAAAAAA".iter().enumerate() {
        buffer[2 + k] = *b;
    }
    buffer[14] = 0x03;
    buffer[16] = 0x02;
    for (k, b) in b"BBBBBBBBBBBB".iter().enumerate() {
        buffer[17 + k] = *b;
    }
    buffer[29] = 0x03;
    assert_eq!(extract_id(&buffer).unwrap(), b"AAAAAAAAAAAA".to_vec());
}

#[test]
fn uid_line_parses() {
    assert_eq!(
        parse_line("[+] UID.... 3112B710"),
        Some("3112B710".to_owned())
    );
    // the four characters after the marker are arbitrary
    assert_eq!(parse_line("[+] UIDabcd 77"), Some("77".to_owned()));
    // the identifier may be empty
    assert_eq!(parse_line("[+] UID.... "), Some("".to_owned()));
}

#[test]
fn other_lines_are_ignored() {
    assert_eq!(parse_line(""), None);
    assert_eq!(parse_line("[+] UID...."), None);
    assert_eq!(parse_line("[=] checking..."), None);
    assert_eq!(parse_line("[+] UID....x77"), None);
    assert_eq!(parse_line("uid 3112B710"), None);
}

#[test]
fn single_read_is_debounced() {
    let mut filter = UidFilter::new(DebouncePolicy::ConfirmTwice);
    assert_eq!(filter.on_line("[+] UID.... 3112B710"), None);
}

#[test]
fn two_consecutive_reads_emit_once() {
    let mut filter = UidFilter::new(DebouncePolicy::ConfirmTwice);
    assert_eq!(filter.on_line("[+] UID.... 3112B710"), None);
    assert_eq!(
        filter.on_line("[+] UID.... 3112B710"),
        Some("3112B710".to_owned())
    );
}

#[test]
fn changed_read_needs_reconfirmation() {
    let mut filter = UidFilter::new(DebouncePolicy::ConfirmTwice);
    assert_eq!(filter.on_line("[+] UID.... 3112B710"), None);
    assert_eq!(filter.on_line("[+] UID.... AAAAAAAA"), None);
    assert_eq!(
        filter.on_line("[+] UID.... AAAAAAAA"),
        Some("AAAAAAAA".to_owned())
    );
}

#[test]
fn unmatched_lines_do_not_reset_the_filter() {
    let mut filter = UidFilter::new(DebouncePolicy::ConfirmTwice);
    assert_eq!(filter.on_line("[+] UID.... 3112B710"), None);
    assert_eq!(filter.on_line("[=] noise"), None);
    assert_eq!(
        filter.on_line("[+] UID.... 3112B710"),
        Some("3112B710".to_owned())
    );
}

#[test]
fn immediate_policy_emits_every_match() {
    let mut filter = UidFilter::new(DebouncePolicy::Immediate);
    assert_eq!(
        filter.on_line("[+] UID.... 3112B710"),
        Some("3112B710".to_owned())
    );
    assert_eq!(
        filter.on_line("[+] UID.... 3112B710"),
        Some("3112B710".to_owned())
    );
}
