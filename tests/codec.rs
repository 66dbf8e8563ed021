use med::codec::{decode_data, decode_header, encode_data, encode_header, Header};

fn header(d: &str, de: &str, ds: &str, nd: &str) -> Header {
    Header::new(d.to_string(), de.to_string(), ds.to_string(), nd.to_string())
}

#[test]
fn data_file_holds_name_then_note() {
    assert_eq!(encode_data("Anna", "fever"), "Anna\nfever");
    assert_eq!(encode_data("Anna", ""), "Anna\n");
}

#[test]
fn data_round_trip() {
    let c = encode_data("Anna", "fever since monday");
    assert_eq!(decode_data(&c), (Some("Anna".to_string()), "fever since monday".to_string()));
    let c = encode_data("Bob", "");
    assert_eq!(decode_data(&c), (Some("Bob".to_string()), String::new()));
}

#[test]
fn data_round_trip_joins_note_lines() {
    let c = encode_data("Anna", "line one\nline two\n");
    assert_eq!(decode_data(&c), (Some("Anna".to_string()), "line oneline two".to_string()));
}

#[test]
fn data_reading_drops_carriage_returns_before_line_feeds() {
    assert_eq!(
        decode_data("Anna\r\nfirst\r\nsecond"),
        (Some("Anna".to_string()), "firstsecond".to_string())
    );
}

#[test]
fn empty_data_file_holds_no_name() {
    assert_eq!(decode_data(""), (None, String::new()));
}

#[test]
fn later_note_overwrites_earlier_in_shared_directory() {
    // Two names with the same key write the same `data` file: the last
    // write is what a later read sees.
    let first = encode_data("patient21", "a");
    let second = encode_data("patient22", "b");
    assert_ne!(first, second);
    assert_eq!(decode_data(&second), (Some("patient22".to_string()), "b".to_string()));
}

#[test]
fn header_file_has_four_labelled_lines() {
    let h = header("flu", "12", "3", "7");
    assert_eq!(encode_header(&h), "Diag: flu\nDE: 12\nDS: 3\nND: 7\n");
    assert_eq!(encode_header(&Header::empty()), "Diag: \nDE: \nDS: \nND: \n");
}

#[test]
fn header_round_trip() {
    let h = header("flu", "12", "3", "7");
    assert_eq!(decode_header(&encode_header(&h)), h);
    let h = header("", "", "", "");
    assert_eq!(decode_header(&encode_header(&h)), h);
    let h = header("Diag: odd", "DS: x", "ND: ", "a b c");
    assert_eq!(decode_header(&encode_header(&h)), h);
}

#[test]
fn absent_header_reads_empty() {
    assert_eq!(decode_header(""), Header::empty());
}

#[test]
fn short_header_reads_best_effort() {
    assert_eq!(decode_header("Diag: flu\nDE: 3\n"), header("flu", "3", "", ""));
    assert_eq!(decode_header("Diag: flu"), header("flu", "", "", ""));
}

#[test]
fn malformed_header_lines_are_skipped() {
    assert_eq!(decode_header("garbage\nDE: 3\n\nND: 9\nextra\n"), header("", "3", "", "9"));
}

#[test]
fn header_is_read_by_label_not_position() {
    assert_eq!(decode_header("ND: 1\nDS: 2\nDE: 3\nDiag: x\n"), header("x", "3", "2", "1"));
}
