use ferrum::crc32::crc32;
use ferrum::zip::{
    DosTime, ZipError, ZipWriter, CENTRAL_HEADER, END_OF_DIRECTORY, LOCAL_HEADER, METHOD_STORED,
};

fn read_u32(bytes: &[u8], at: usize) -> u32 {
    u32::from_le_bytes(bytes[at..at + 4].try_into().unwrap())
}

fn read_u16(bytes: &[u8], at: usize) -> u16 {
    u16::from_le_bytes(bytes[at..at + 2].try_into().unwrap())
}

#[test]
fn an_empty_archive_is_just_its_end_record() {
    let bytes = ZipWriter::new().finish().unwrap();
    assert_eq!(bytes.len(), 22);
    assert_eq!(read_u32(&bytes, 0), END_OF_DIRECTORY);
    assert_eq!(read_u16(&bytes, 10), 0, "no entries");
}

#[test]
fn one_entry_produces_a_local_header_and_a_directory_record() {
    let mut zip = ZipWriter::new();
    zip.add("hello.txt", b"hello").unwrap();
    let bytes = zip.finish().unwrap();

    assert_eq!(read_u32(&bytes, 0), LOCAL_HEADER);
    assert_eq!(read_u16(&bytes, 8), METHOD_STORED);
    assert_eq!(read_u32(&bytes, 14), crc32(b"hello"));
    assert_eq!(read_u32(&bytes, 18), 5, "compressed size");
    assert_eq!(read_u32(&bytes, 22), 5, "uncompressed size");
    assert_eq!(read_u16(&bytes, 26), 9, "name length");
    assert_eq!(&bytes[30..39], b"hello.txt");
    assert_eq!(&bytes[39..44], b"hello");

    let end = bytes.len() - 22;
    assert_eq!(read_u32(&bytes, end), END_OF_DIRECTORY);
    assert_eq!(read_u16(&bytes, end + 10), 1);
    let directory_at = read_u32(&bytes, end + 16) as usize;
    assert_eq!(read_u32(&bytes, directory_at), CENTRAL_HEADER);
}

#[test]
fn the_directory_points_at_each_local_header() {
    let mut zip = ZipWriter::new();
    zip.add("one.txt", b"first").unwrap();
    zip.add("two.txt", b"second entry").unwrap();
    zip.add("dir/three.txt", b"").unwrap();
    let bytes = zip.finish().unwrap();

    let end = bytes.len() - 22;
    assert_eq!(read_u16(&bytes, end + 10), 3);
    let mut at = read_u32(&bytes, end + 16) as usize;

    for (name, data) in [
        ("one.txt", &b"first"[..]),
        ("two.txt", &b"second entry"[..]),
        ("dir/three.txt", &b""[..]),
    ] {
        assert_eq!(read_u32(&bytes, at), CENTRAL_HEADER);
        let name_len = read_u16(&bytes, at + 28) as usize;
        assert_eq!(&bytes[at + 46..at + 46 + name_len], name.as_bytes());

        let local = read_u32(&bytes, at + 42) as usize;
        assert_eq!(read_u32(&bytes, local), LOCAL_HEADER);
        let local_name_len = read_u16(&bytes, local + 26) as usize;
        let data_at = local + 30 + local_name_len;
        assert_eq!(&bytes[data_at..data_at + data.len()], data);

        at += 46 + name_len;
    }
}

#[test]
fn the_output_is_reproducible() {
    let build = || {
        let mut zip = ZipWriter::new();
        zip.add("a.xml", b"<a/>").unwrap();
        zip.add("b.xml", b"<b/>").unwrap();
        zip.finish().unwrap()
    };
    assert_eq!(build(), build(), "two saves should compare equal");
}

#[test]
fn a_timestamp_packs_into_the_dos_fields() {
    let stamp = DosTime::new(2026, 9, 20, 14, 30, 44);
    assert_eq!(stamp.date_bits(), (2026 - 1980) << 9 | 9 << 5 | 20);
    assert_eq!(stamp.time_bits(), 14 << 11 | 30 << 5 | 22);
}

#[test]
fn an_out_of_range_timestamp_is_clamped_rather_than_refused() {
    let early = DosTime::new(1900, 0, 0, 99, 99, 99);
    assert_eq!(early.date_bits(), 1 << 5 | 1);
    let late = DosTime::new(3000, 13, 40, 25, 61, 61);
    assert_eq!(late.date_bits(), (2107 - 1980) << 9 | 12 << 5 | 31);
}

#[test]
fn dangerous_names_are_refused() {
    let mut zip = ZipWriter::new();
    assert!(zip.add("", b"x").is_err());
    assert!(zip.add("/absolute", b"x").is_err());
    assert!(zip.add("..", b"x").is_err());
    assert!(zip.add("a/../../escape", b"x").is_err());
    assert!(zip.add("back\\slash", b"x").is_err());
    assert!(zip.add("xl/worksheets/sheet1.xml", b"x").is_ok());
}

#[test]
fn an_empty_entry_is_allowed() {
    let mut zip = ZipWriter::new();
    zip.add("empty", b"").unwrap();
    let bytes = zip.finish().unwrap();
    assert_eq!(read_u32(&bytes, 14), 0, "the crc of nothing is zero");
    assert_eq!(read_u32(&bytes, 18), 0);
}

#[test]
fn a_refused_name_comes_back_in_the_error() {
    let mut zip = ZipWriter::new();
    assert_eq!(zip.add("a\\b", b"x"), Err(ZipError::BadName("a\\b".to_string())));
    // Dots that are not a whole component are fine.
    assert!(zip.add("a..b/..c", b"x").is_ok());
    assert!(zip.add("a/..", b"x").is_err());
}

#[test]
fn the_stamp_is_written_into_every_header() {
    let mut zip = ZipWriter::new().with_time(DosTime::new(2026, 9, 20, 14, 30, 44));
    zip.add("a", b"x").unwrap();
    let bytes = zip.finish().unwrap();
    assert_eq!(read_u16(&bytes, 10), 14 << 11 | 30 << 5 | 22);
    assert_eq!(read_u16(&bytes, 12), (2026 - 1980) << 9 | 9 << 5 | 20);
    let epoch = DosTime::epoch();
    assert_eq!((epoch.time_bits(), epoch.date_bits()), (0, 33));
}
