use castella::drive::{
    file_url, multipart_body, multipart_boundary, multipart_content_type, range_header_value,
    read_content_length, read_response_range, resolve_response_range, Error, FileHandle,
    FolderHandle,
};
use castella::header::{parse_single_range_header, Bound, RangeCustom};
use castella::store::{allocate_file, rand_drive_name, rand_file_name, select_drive, Allocation, DriveLoad, DRIVE_MAX_FILE_LIMIT};

#[test]
fn handles_keep_the_id() {
    assert_eq!(FolderHandle::new("folder-1".to_string()).id, "folder-1");
    assert_eq!(FileHandle::new("file-1".to_string()).id, "file-1");
    assert_eq!(FileHandle::new(String::new()).id, "");
}

#[test]
fn boundary_is_fifty_alphanumerics() {
    let a = multipart_boundary();
    let b = multipart_boundary();
    assert_eq!(a.len(), 50);
    assert_eq!(a.chars().count(), 50);
    assert!(a.chars().all(|c| c.is_ascii_alphanumeric()));
    assert_ne!(a, b);
}

#[test]
fn multipart_body_is_framed_exactly() {
    let body = multipart_body("XYZ", "{\"name\":\"n\"}", 1000).unwrap();
    assert_eq!(
        body.prefix,
        "--XYZ\r\ncontent-type: application/json; charset=utf-8\r\n\r\n{\"name\":\"n\"}\r\n--XYZ\r\ncontent-type: application/octet-stream\r\n\r\n"
    );
    assert_eq!(body.suffix, "\r\n--XYZ--");
    assert_eq!(body.length, body.prefix.len() as u64 + 1000 + body.suffix.len() as u64);
    assert_eq!(body.length, 119 + 1000 + 9);
}

#[test]
fn multipart_length_counts_bytes_not_characters() {
    let body = multipart_body("b", "{\"name\":\"\u{e9}\u{4e2d}\"}", 0).unwrap();
    assert_eq!(body.length, (body.prefix.len() + body.suffix.len()) as u64);
    assert!(body.prefix.len() > body.prefix.chars().count());
}

#[test]
fn multipart_length_that_overflows_is_refused() {
    assert!(multipart_body("b", "{}", u64::MAX).is_none());
    let frame = multipart_body("b", "{}", 0).unwrap().length;
    assert!(multipart_body("b", "{}", u64::MAX - frame).is_some());
    assert!(multipart_body("b", "{}", u64::MAX - frame + 1).is_none());
}

#[test]
fn multipart_content_type_names_the_boundary() {
    assert_eq!(multipart_content_type("aB3xYz"), "multipart/related; boundary=aB3xYz");
    let boundary = multipart_boundary();
    assert_eq!(multipart_content_type(&boundary), format!("multipart/related; boundary={boundary}"));
}

#[test]
fn file_url_names_the_file() {
    let file = FileHandle::new("1AbC_d-9".to_string());
    assert_eq!(file_url(&file), "https://www.googleapis.com/drive/v3/files/1AbC_d-9");
}

#[test]
fn range_header_names_both_ends_inclusively() {
    assert_eq!(range_header_value(&(0..1)), "bytes=0-0");
    assert_eq!(range_header_value(&(5..11)), "bytes=5-10");
    assert_eq!(range_header_value(&(1_048_592..2_097_184)), "bytes=1048592-2097183");
    assert_eq!(range_header_value(&(0..0)), "bytes=0-0");
    assert_eq!(range_header_value(&(0..u64::MAX)), "bytes=0-18446744073709551614");
}

#[test]
fn range_header_reads_back() {
    for (a, b) in [(0u64, 1u64), (5, 11), (1_048_592, 2_097_184), (7, u64::MAX)] {
        assert_eq!(
            parse_single_range_header(&range_header_value(&(a..b))),
            Some(RangeCustom { start: Bound::Included(a), end: Bound::Included(b - 1) })
        );
    }
}

#[test]
fn partial_response_uses_content_range() {
    assert_eq!(resolve_response_range(&(10..20), true, Some((10, 19)), None), Ok(10..20));
    assert_eq!(resolve_response_range(&(10..20), true, Some((0, 99)), Some(5)), Ok(0..100));
    assert_eq!(resolve_response_range(&(10..20), true, None, Some(5)), Ok(10..20));
    assert_eq!(resolve_response_range(&(0..5), true, Some((0, u64::MAX)), None), Ok(0..u64::MAX));
}

#[test]
fn full_response_uses_content_length() {
    assert_eq!(resolve_response_range(&(10..20), false, Some((10, 19)), Some(100)), Ok(0..100));
    assert_eq!(resolve_response_range(&(10..20), false, None, Some(20)), Ok(0..20));
    assert_eq!(resolve_response_range(&(10..20), false, Some((0, 5)), None), Ok(10..20));
}

#[test]
fn narrow_response_is_refused() {
    let refused = Err(Error::FileRangeResponseInvalid(10, 20));
    assert_eq!(resolve_response_range(&(10..20), true, Some((11, 19)), None), refused);
    assert_eq!(resolve_response_range(&(10..20), true, Some((10, 18)), None), refused);
    assert_eq!(resolve_response_range(&(10..20), false, None, Some(19)), refused);
    assert_eq!(resolve_response_range(&(10..20), true, Some((0, 0)), None), refused);
}

fn lengths(values: &[&str]) -> Vec<Vec<u8>> {
    values.iter().map(|v| v.as_bytes().to_vec()).collect()
}

#[test]
fn response_headers_are_read() {
    let none = lengths(&[]);
    assert_eq!(read_response_range(&(10..20), true, Some("bytes 10-19/100"), &none), Ok(10..20));
    assert_eq!(read_response_range(&(10..20), true, Some("bytes 0-99/*"), &none), Ok(0..100));
    assert_eq!(read_response_range(&(10..20), true, Some("bytes */100"), &none), Ok(10..20));
    assert_eq!(read_response_range(&(10..20), true, Some("items 0-99/100"), &none), Ok(10..20));
    assert_eq!(read_response_range(&(10..20), true, Some("bytes 99-0/100"), &none), Ok(10..20));
    assert_eq!(read_response_range(&(10..20), true, Some("bad\nvalue"), &none), Ok(10..20));
    assert_eq!(
        read_response_range(&(10..20), true, Some("bytes 12-19/100"), &none),
        Err(Error::FileRangeResponseInvalid(10, 20))
    );
    assert_eq!(
        read_response_range(&(10..20), false, Some("bytes 12-19/100"), &lengths(&["100"])),
        Ok(0..100)
    );
    assert_eq!(
        read_response_range(&(10..20), false, None, &lengths(&["15"])),
        Err(Error::FileRangeResponseInvalid(10, 20))
    );
    assert_eq!(read_response_range(&(10..20), false, None, &lengths(&["x"])), Ok(10..20));
    assert_eq!(read_response_range(&(10..20), false, None, &none), Ok(10..20));
}

#[test]
fn repeated_content_lengths_must_agree() {
    assert_eq!(read_content_length(&lengths(&[])), None);
    assert_eq!(read_content_length(&lengths(&["100"])), Some(100));
    assert_eq!(read_content_length(&lengths(&["100", "100", "100"])), Some(100));
    assert_eq!(read_content_length(&lengths(&["100", "0100", "+100"])), Some(100));
    assert_eq!(read_content_length(&lengths(&["100", "101"])), None);
    assert_eq!(read_content_length(&lengths(&["100", "100", "x"])), None);
    assert_eq!(read_content_length(&lengths(&["x", "100"])), None);
    assert_eq!(read_content_length(&lengths(&["", "100"])), None);
    assert_eq!(read_content_length(&vec![vec![0xFF, 0x31]]), None);
    assert_eq!(read_content_length(&lengths(&["18446744073709551616"])), None);
    assert_eq!(read_response_range(&(10..20), false, None, &lengths(&["100", "100"])), Ok(0..100));
    assert_eq!(read_response_range(&(10..20), false, None, &lengths(&["100", "5"])), Ok(10..20));
}

fn loads(files: &[u64]) -> Vec<DriveLoad> {
    files.iter().enumerate().map(|(i, f)| DriveLoad { key: 100 + i as i32, files: *f }).collect()
}

#[test]
fn allocator_takes_the_least_loaded_drive() {
    assert_eq!(select_drive(&loads(&[5, 3, 9]), 10), Some(1));
    assert_eq!(select_drive(&loads(&[5, 3, 3]), 10), Some(1));
    assert_eq!(select_drive(&loads(&[0]), 0), Some(0));
    assert_eq!(allocate_file(&loads(&[5, 3, 9]), 10), Allocation::Existing(101));
    assert_eq!(allocate_file(&loads(&[11, 10, 12]), 10), Allocation::Existing(101));
}

#[test]
fn allocator_never_takes_a_drive_over_the_limit() {
    assert_eq!(select_drive(&loads(&[11, 12]), 10), None);
    assert_eq!(select_drive(&loads(&[]), 10), None);
    assert_eq!(allocate_file(&loads(&[11, 12]), 10), Allocation::Create);
    assert_eq!(allocate_file(&loads(&[]), DRIVE_MAX_FILE_LIMIT), Allocation::Create);
    assert_eq!(allocate_file(&loads(&[350_001, 350_000]), DRIVE_MAX_FILE_LIMIT), Allocation::Existing(101));
    assert_eq!(allocate_file(&loads(&[350_001, u64::MAX]), DRIVE_MAX_FILE_LIMIT), Allocation::Create);
    assert_eq!(DRIVE_MAX_FILE_LIMIT, 350_000);
}

#[test]
fn names_are_random_alphanumerics() {
    let drive = rand_drive_name();
    assert_eq!(drive.len(), 19);
    assert!(drive.starts_with("castella-"));
    assert!(drive[9..].chars().all(|c| c.is_ascii_alphanumeric()));
    let file = rand_file_name();
    assert_eq!(file.len(), 20);
    assert!(file.chars().all(|c| c.is_ascii_alphanumeric()));
    assert_ne!(file, rand_file_name());
    assert_ne!(drive, rand_drive_name());
}
