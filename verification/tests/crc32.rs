use ferrum::crc32::{crc32, Crc32};

#[test]
fn the_published_check_value_matches() {
    assert_eq!(crc32(b"123456789"), 0xCBF4_3926);
}

#[test]
fn the_empty_input_is_zero() {
    assert_eq!(crc32(b""), 0);
}

#[test]
fn a_few_known_values() {
    assert_eq!(crc32(b"a"), 0xE8B7_BE43);
    assert_eq!(crc32(b"abc"), 0x3524_41C2);
    assert_eq!(
        crc32(b"The quick brown fox jumps over the lazy dog"),
        0x414F_A339
    );
}

#[test]
fn feeding_it_in_pieces_gives_the_same_answer() {
    let whole = crc32(b"the quick brown fox");
    let mut running = Crc32::new();
    running.update(b"the qui");
    running.update(b"ck bro");
    running.update(b"wn fox");
    assert_eq!(running.finish(), whole);
}

#[test]
fn an_empty_piece_changes_nothing() {
    let mut running = Crc32::new();
    running.update(b"abc");
    running.update(b"");
    assert_eq!(running.finish(), crc32(b"abc"));
}

#[test]
fn it_is_sensitive_to_order() {
    assert_ne!(crc32(b"ab"), crc32(b"ba"));
}

#[test]
fn a_fresh_checksum_finishes_at_zero() {
    assert_eq!(Crc32::new().finish(), 0);
}
