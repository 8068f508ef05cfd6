use safari_binarycookies::timestamp::{clamp_unix_timestamp, datetime_from_unix};
use safari_binarycookies::{cookies, from_bytes, Error};

fn record(name: &[u8], value: &[u8], flags: u32) -> Vec<u8> {
    let domain = b"example.com\x00";
    let path = b"/\x00";
    let domain_offset = 56u32;
    let name_offset = domain_offset + domain.len() as u32;
    let path_offset = name_offset + name.len() as u32;
    let value_offset = path_offset + path.len() as u32;
    let size = value_offset + value.len() as u32;
    let mut out = Vec::new();
    for word in [size, 0, flags, 0, domain_offset, name_offset, path_offset, value_offset, 0, 0] {
        out.extend_from_slice(&word.to_le_bytes());
    }
    out.extend_from_slice(&[0u8; 16]);
    out.extend_from_slice(domain);
    out.extend_from_slice(name);
    out.extend_from_slice(path);
    out.extend_from_slice(value);
    out
}

fn jar(pages: &[Vec<Vec<u8>>], checksum: [u8; 8]) -> Vec<u8> {
    let mut file = Vec::new();
    file.extend_from_slice(b"cook");
    file.extend_from_slice(&(pages.len() as u32).to_be_bytes());
    for _ in pages {
        file.extend_from_slice(&0u32.to_be_bytes());
    }
    for page in pages {
        file.extend_from_slice(&[0x00, 0x00, 0x01, 0x00]);
        file.extend_from_slice(&(page.len() as u32).to_le_bytes());
        for _ in page {
            file.extend_from_slice(&0u32.to_le_bytes());
        }
        file.extend_from_slice(&[0x00; 4]);
        for rec in page {
            file.extend_from_slice(rec);
        }
    }
    file.extend_from_slice(&checksum);
    file
}

fn two_pages() -> Vec<u8> {
    jar(
        &[
            vec![record(b"a\x00", b"1\x00", 0), record(b"b\x00", b"2\x00", 1)],
            vec![],
            vec![record(b"c\x00", b"3\x00", 4)],
        ],
        [1, 2, 3, 4, 5, 6, 7, 8],
    )
}

#[test]
fn bytes_after_checksum_are_ignored() {
    let file = two_pages();
    let mut longer = file.clone();
    longer.extend_from_slice(b"bplist00 trailing policy blob");
    assert_eq!(from_bytes(&longer).unwrap(), from_bytes(&file).unwrap());
}

#[test]
fn checksum_is_kept_not_verified() {
    let file = two_pages();
    let mut other = file.clone();
    let n = other.len();
    other[n - 8..].copy_from_slice(&[0xff; 8]);
    let a = from_bytes(&file).unwrap();
    let b = from_bytes(&other).unwrap();
    assert_eq!(a.pages, b.pages);
    assert_eq!(a.checksum, [1, 2, 3, 4, 5, 6, 7, 8]);
    assert_eq!(b.checksum, [0xff; 8]);
}

#[test]
fn every_shorter_prefix_fails() {
    let file = two_pages();
    for n in 0..file.len() {
        assert!(from_bytes(&file[..n]).is_err(), "prefix {n}");
    }
    assert!(from_bytes(&file).is_ok());
}

#[test]
fn flattened_cookies_follow_file_order() {
    let jar = from_bytes(&two_pages()).unwrap();
    let names: Vec<&str> = jar.cookies().iter().map(|c| c.name.as_str()).collect();
    assert_eq!(names, ["a", "b", "c"]);
    let values: Vec<&str> = jar.iter().iter().map(|c| c.value.as_str()).collect();
    assert_eq!(values, ["1", "2", "3"]);
    assert_eq!(jar.pages[0].iter().len(), 2);
    assert_eq!(jar.pages[1].iter().len(), 0);
    assert_eq!(jar.pages[0].offsets, [0, 0]);
}

#[test]
fn stream_yields_eager_cookies_then_stops() {
    let file = two_pages();
    let eager = from_bytes(&file).unwrap();
    let mut stream = cookies(&file).unwrap();
    for expected in eager.cookies() {
        let got = stream.next().unwrap().unwrap();
        assert_eq!(&got, expected);
    }
    assert!(stream.next().is_none());
    assert!(stream.next().is_none());
}

#[test]
fn stream_yields_cookies_before_error_then_error_once() {
    let mut file = two_pages();
    // Corrupt the tag of the third page: the first page's two cookies come
    // first, then the error, then nothing.
    let third_page = file.len() - 8 - (16 + record(b"c\x00", b"3\x00", 4).len());
    file[third_page] = 0x7f;
    assert!(matches!(from_bytes(&file), Err(Error::InvalidPageTag)));
    let mut stream = cookies(&file).unwrap();
    assert!(matches!(stream.next(), Some(Ok(c)) if c.name == "a"));
    assert!(matches!(stream.next(), Some(Ok(c)) if c.name == "b"));
    assert!(matches!(stream.next(), Some(Err(Error::InvalidPageTag))));
    assert!(stream.next().is_none());
    assert_eq!(stream.size_hint(), (0, Some(0)));
}

#[test]
fn stream_size_hint_is_open_until_done() {
    let file = two_pages();
    let stream = cookies(&file).unwrap();
    assert_eq!(stream.size_hint(), (0, None));
}

#[test]
fn header_errors_surface_before_streaming() {
    assert!(matches!(cookies(b"coo"), Err(Error::UnexpectedEof)));
    assert!(matches!(cookies(b"cook\x00\x01\x00\x01"), Err(Error::TooManyPages(0x0001_0001))));
    assert!(matches!(cookies(b"cook\x00\x00\x00\x02\x00\x00"), Err(Error::UnexpectedEof)));
    assert!(matches!(from_bytes(b"cook\x00\x01\x00\x00"), Err(Error::UnexpectedEof)));
}

#[test]
fn cookie_count_cap_is_inclusive() {
    let mut file = Vec::new();
    file.extend_from_slice(b"cook\x00\x00\x00\x01\x00\x00\x00\x00");
    file.extend_from_slice(&[0x00, 0x00, 0x01, 0x00]);
    file.extend_from_slice(&0x10_0001u32.to_le_bytes());
    assert!(matches!(from_bytes(&file), Err(Error::TooManyCookies(0x10_0001))));
    let mut at_cap = Vec::new();
    at_cap.extend_from_slice(b"cook\x00\x00\x00\x01\x00\x00\x00\x00");
    at_cap.extend_from_slice(&[0x00, 0x00, 0x01, 0x00]);
    at_cap.extend_from_slice(&0x10_0000u32.to_le_bytes());
    assert!(matches!(from_bytes(&at_cap), Err(Error::UnexpectedEof)));
}

#[test]
fn page_count_cap_is_inclusive() {
    let mut file = b"cook\x00\x01\x00\x00".to_vec();
    assert!(matches!(from_bytes(&file), Err(Error::UnexpectedEof)));
    file[5] = 0x02;
    assert!(matches!(from_bytes(&file), Err(Error::TooManyPages(0x0002_0000))));
}

#[test]
fn unix_seconds_are_clamped_to_time_range() {
    assert_eq!(clamp_unix_timestamp(0), 0);
    assert_eq!(clamp_unix_timestamp(i64::MAX), 253_402_300_799);
    assert_eq!(clamp_unix_timestamp(i64::MIN), -377_705_116_800);
    assert_eq!(clamp_unix_timestamp(-377_705_116_800), -377_705_116_800);
    assert_eq!(datetime_from_unix(1_396_475_762).unix_timestamp(), 1_396_475_762);
    assert_eq!(datetime_from_unix(i64::MIN).unix_timestamp(), -377_705_116_800);
    assert_eq!(datetime_from_unix(978_307_200).year(), 2001);
}

#[test]
fn tables_are_stored_not_used() {
    let file = two_pages();
    let mut other = file.clone();
    // Page-size table: bytes 8..20 (three pages).
    for byte in &mut other[8..20] {
        *byte = 0xee;
    }
    // First page's offset table: after its tag and count, two entries.
    let first_page = 20;
    other[first_page + 8..first_page + 16].copy_from_slice(&[7, 0, 0, 0, 9, 0, 0, 0]);
    let a = from_bytes(&file).unwrap();
    let b = from_bytes(&other).unwrap();
    assert_eq!(a.pages.len(), b.pages.len());
    for (pa, pb) in a.pages.iter().zip(&b.pages) {
        assert_eq!(pa.cookies, pb.cookies);
        assert_eq!(pa.offsets.len(), pb.offsets.len());
    }
    assert_eq!(b.pages[0].offsets, [7, 9]);
}

#[test]
fn every_shorter_prefix_fails_with_eof() {
    let file = two_pages();
    for n in 0..file.len() {
        assert!(matches!(from_bytes(&file[..n]), Err(Error::UnexpectedEof)), "prefix {n}");
    }
}

#[test]
fn stream_length_is_bounded_by_input() {
    let file = two_pages();
    let mut stream = cookies(&file).unwrap();
    let mut items = 0;
    while stream.next().is_some() {
        items += 1;
    }
    assert_eq!(items, 3);
    assert!(items <= file.len() / 60 + 1);
}

#[test]
fn size_hint_tracks_finish() {
    let file = two_pages();
    let mut stream = cookies(&file).unwrap();
    assert!(matches!(stream.next(), Some(Ok(_))));
    assert_eq!(stream.size_hint(), (0, None));
    let mut broken = file.clone();
    broken[20] = 0x55;
    let mut stream = cookies(&broken).unwrap();
    assert!(matches!(stream.next(), Some(Err(Error::InvalidPageTag))));
    assert_eq!(stream.size_hint(), (0, Some(0)));
    assert!(stream.next().is_none());
}
