use safari_binarycookies::display::format_line;
use safari_binarycookies::timestamp::datetime_from_unix;
use safari_binarycookies::Flags;
use safari_binarycookies::{cookies, from_bytes, Component, Cookie, Error};

#[derive(Debug, Default, Clone)]
struct CookieSpec {
    comment: Option<Vec<u8>>,
    domain: Vec<u8>,
    name: Vec<u8>,
    path: Vec<u8>,
    value: Vec<u8>,
    flags: u32,
    expires: f64,
    creation: f64,
}

const HEADER_LEN: u32 = 56;

fn build_cookie(spec: &CookieSpec) -> Vec<u8> {
    let comment_len = spec.comment.as_ref().map_or(0, |c| c.len() as u32);
    let comment_offset = if spec.comment.is_some() { HEADER_LEN } else { 0 };
    let domain_offset = HEADER_LEN + comment_len;
    let name_offset = domain_offset + spec.domain.len() as u32;
    let path_offset = name_offset + spec.name.len() as u32;
    let value_offset = path_offset + spec.path.len() as u32;
    let size = value_offset + spec.value.len() as u32;

    let mut cookie = Vec::new();
    let header = [
        size,
        0,
        spec.flags,
        0,
        domain_offset,
        name_offset,
        path_offset,
        value_offset,
        comment_offset,
        0,
    ];
    for word in header {
        cookie.extend_from_slice(&word.to_le_bytes());
    }
    cookie.extend_from_slice(&spec.expires.to_le_bytes());
    cookie.extend_from_slice(&spec.creation.to_le_bytes());
    if let Some(comment) = &spec.comment {
        cookie.extend_from_slice(comment);
    }
    cookie.extend_from_slice(&spec.domain);
    cookie.extend_from_slice(&spec.name);
    cookie.extend_from_slice(&spec.path);
    cookie.extend_from_slice(&spec.value);
    cookie
}

fn build_page(specs: &[CookieSpec]) -> Vec<u8> {
    let records: Vec<Vec<u8>> = specs.iter().map(build_cookie).collect();
    let header_len = 4 + 4 + 4 * specs.len() + 4;
    let mut page = Vec::new();
    page.extend_from_slice(&[0x00, 0x00, 0x01, 0x00]);
    page.extend_from_slice(&(specs.len() as u32).to_le_bytes());
    let mut offset = header_len;
    for record in &records {
        page.extend_from_slice(&(offset as u32).to_le_bytes());
        offset += record.len();
    }
    page.extend_from_slice(&[0x00, 0x00, 0x00, 0x00]);
    for record in &records {
        page.extend_from_slice(record);
    }
    page
}

fn build_jar(pages: &[Vec<CookieSpec>], checksum: [u8; 8]) -> Vec<u8> {
    let bodies: Vec<Vec<u8>> = pages.iter().map(|p| build_page(p)).collect();
    let mut file = Vec::new();
    file.extend_from_slice(b"cook");
    file.extend_from_slice(&(pages.len() as u32).to_be_bytes());
    for body in &bodies {
        file.extend_from_slice(&(body.len() as u32).to_be_bytes());
    }
    for body in &bodies {
        file.extend_from_slice(body);
    }
    file.extend_from_slice(&checksum);
    file
}

fn build_cookie_file(spec: &CookieSpec) -> Vec<u8> {
    build_jar(&[vec![spec.clone()]], [0u8; 8])
}

fn spec_with_value() -> CookieSpec {
    CookieSpec {
        domain: b"d\x00".to_vec(),
        name: b"n\x00".to_vec(),
        path: b"/\x00".to_vec(),
        value: b"v\x00".to_vec(),
        ..CookieSpec::default()
    }
}

// A multi-page jar: eleven
// pages, the second holding four urlecho.appspot.com cookies.
fn multipage() -> Vec<u8> {
    let cookie = |name: &str, flags: u32| CookieSpec {
        domain: b"urlecho.appspot.com\x00".to_vec(),
        name: [name.as_bytes(), b"\x00"].concat(),
        path: b"/\x00".to_vec(),
        value: b"value\x00".to_vec(),
        flags,
        expires: 418_125_600.0,
        creation: 418_000_000.0,
        ..CookieSpec::default()
    };
    let mut pages = vec![Vec::new(); 11];
    pages[1] = vec![
        cookie("httpOnly", 0x4),
        cookie("httpOnlySecure", 0x5),
        cookie("normal", 0x0),
        cookie("secure", 0x1),
    ];
    build_jar(&pages, [0x00, 0x00, 0x16, 0x33, 0x07, 0x17, 0x20, 0x05])
}

fn collect(data: &[u8]) -> Result<Vec<Cookie>, Error> {
    let mut stream = cookies(data)?;
    let mut out = Vec::new();
    while let Some(item) = stream.next() {
        out.push(item?);
    }
    Ok(out)
}

// The float half of the timestamp conversion, done here on the raw bits.
fn unix_of(bits: u64) -> i64 {
    let seconds = f64::from_bits(bits) + 978_307_200.0;
    datetime_from_unix(seconds as i64).unix_timestamp()
}

#[test]
fn rejects_huge_cookie_count() {
    let input = [
        b'c', b'o', b'o', b'k', //
        0x00, 0x00, 0x00, 0x01, //
        0x00, 0x00, 0x00, 0x0c, //
        0x00, 0x00, 0x01, 0x00, //
        0x00, 0x00, 0x00, 0xe8, //
    ];
    assert!(matches!(
        from_bytes(&input),
        Err(Error::TooManyCookies(0xe800_0000))
    ));
}

#[test]
fn rejects_huge_page_count() {
    let input = [b'c', b'o', b'o', b'k', 0x7f, 0xff, 0xff, 0xff];
    assert!(matches!(
        from_bytes(&input),
        Err(Error::TooManyPages(0x7fff_ffff))
    ));
}

#[test]
fn empty_field_does_not_panic() {
    type ClearField = fn(&mut CookieSpec);
    type ReadField = fn(&Cookie) -> &str;
    let cases: [(&str, ClearField, ReadField); 3] = [
        ("empty domain", |spec| spec.domain = Vec::new(), |c| &c.domain),
        ("empty name", |spec| spec.name = Vec::new(), |c| &c.name),
        ("empty path", |spec| spec.path = Vec::new(), |c| &c.path),
    ];
    for (label, clear_field, read_field) in cases {
        let mut spec = spec_with_value();
        clear_field(&mut spec);
        let jar = from_bytes(&build_cookie_file(&spec)).unwrap();
        assert_eq!(jar.pages.len(), 1, "{label}");
        assert_eq!(jar.pages[0].cookies.len(), 1, "{label}");
        let cookie = &jar.pages[0].cookies[0];
        assert_eq!(read_field(cookie), "", "{label}");
        assert_eq!(cookie.value, "v", "{label}");
    }
}

#[test]
fn truncated_input_returns_error() {
    let file = multipage();
    assert!(from_bytes(&file).is_ok());
    for n in 0..file.len() {
        assert!(from_bytes(&file[..n]).is_err(), "prefix of {n} bytes must not decode");
    }
}

#[test]
fn non_monotonic_offsets_are_malformed() {
    let mut input = build_cookie_file(&spec_with_value());
    input[48..52].copy_from_slice(&10u32.to_le_bytes());
    assert!(matches!(from_bytes(&input), Err(Error::MalformedOffsets)));
}

#[test]
fn telescoping_check_covers_missing_comment() {
    let mut input = build_cookie_file(&spec_with_value());
    input[44..48].copy_from_slice(&5000u32.to_le_bytes());
    assert!(matches!(
        from_bytes(&input),
        Err(Error::CookieTooLarge {
            component: Component::Comment,
            size: 5000
        })
    ));
}

#[test]
fn oversized_component_total_is_rejected() {
    let spec = CookieSpec {
        comment: Some(vec![b'c'; 1000]),
        domain: vec![b'd'; 1000],
        name: vec![b'n'; 1000],
        path: vec![b'p'; 1000],
        value: vec![b'v'; 1000],
        ..CookieSpec::default()
    };
    assert!(matches!(
        from_bytes(&build_cookie_file(&spec)),
        Err(Error::CookieTotalTooLarge(5000))
    ));
}

#[test]
fn nan_timestamp_decodes_to_epoch() {
    let spec = CookieSpec {
        expires: f64::NAN,
        ..spec_with_value()
    };
    let jar = from_bytes(&build_cookie_file(&spec)).unwrap();
    assert_eq!(unix_of(jar.pages[0].cookies[0].expires), 0);
}

#[test]
fn extreme_timestamps_clamp() {
    for (expires, expected) in [
        (f64::INFINITY, 253_402_300_799),
        (1e300, 253_402_300_799),
        (f64::NEG_INFINITY, -377_705_116_800),
    ] {
        let spec = CookieSpec {
            expires,
            ..spec_with_value()
        };
        let jar = from_bytes(&build_cookie_file(&spec)).unwrap();
        assert_eq!(unix_of(jar.pages[0].cookies[0].expires), expected, "expires {expires}");
    }
}

#[test]
fn mac_epoch_time_handles_extreme_values() {
    assert_eq!(unix_of(0.0f64.to_bits()), 978_307_200);
    assert_eq!(unix_of(f64::NAN.to_bits()), 0);
    assert_eq!(unix_of(f64::INFINITY.to_bits()), 253_402_300_799);
    assert_eq!(unix_of(f64::NEG_INFINITY.to_bits()), -377_705_116_800);
    assert_eq!(unix_of(1e300f64.to_bits()), 253_402_300_799);
}

#[test]
fn wrap_window_comment_offset_is_rejected() {
    let mut input = Vec::new();
    input.extend_from_slice(b"cook");
    input.extend_from_slice(&1u32.to_be_bytes());
    input.extend_from_slice(&0x0cu32.to_be_bytes());
    input.extend_from_slice(&[0x00, 0x00, 0x01, 0x00]);
    input.extend_from_slice(&1u32.to_le_bytes());
    input.extend_from_slice(&0x10u32.to_le_bytes());
    input.extend_from_slice(&[0x00; 4]);
    for word in [0u32, 0, 0, 0, 0, 0, 0, 0, 0xFFFF_FFF6, 0] {
        input.extend_from_slice(&word.to_le_bytes());
    }
    input.extend_from_slice(&[0u8; 16]);
    input.extend_from_slice(b"ABCDEFGHIJ");
    input.extend_from_slice(&[0u8; 8]);
    assert!(matches!(from_bytes(&input), Err(Error::MalformedOffsets)));
}

#[test]
fn claimed_count_beyond_remaining_input() {
    let mut input = Vec::new();
    input.extend_from_slice(b"cook");
    input.extend_from_slice(&1u32.to_be_bytes());
    input.extend_from_slice(&0x0cu32.to_be_bytes());
    input.extend_from_slice(&[0x00, 0x00, 0x01, 0x00]);
    input.extend_from_slice(&1000u32.to_le_bytes());
    assert!(matches!(from_bytes(&input), Err(Error::UnexpectedEof)));
}

#[test]
fn value_truncates_at_embedded_nul() {
    let spec = CookieSpec {
        value: b"abc\x00tail".to_vec(),
        ..spec_with_value()
    };
    let jar = from_bytes(&build_cookie_file(&spec)).unwrap();
    assert_eq!(jar.pages[0].cookies[0].value, "abc");
}

#[test]
fn comment_keeps_terminator() {
    let spec = CookieSpec {
        comment: Some(b"note\x00".to_vec()),
        ..spec_with_value()
    };
    let jar = from_bytes(&build_cookie_file(&spec)).unwrap();
    assert_eq!(jar.pages[0].cookies[0].comment.as_deref(), Some("note\x00"));
}

#[test]
fn lazy_truncated_trailer_matches_eager() {
    let mut input = build_cookie_file(&spec_with_value());
    input.truncate(input.len() - 5);

    assert!(matches!(from_bytes(&input), Err(Error::UnexpectedEof)));

    let mut lazy = cookies(&input).unwrap();
    assert!(matches!(lazy.next(), Some(Ok(_))), "the one cookie still parses");
    assert!(
        matches!(lazy.next(), Some(Err(Error::UnexpectedEof))),
        "the truncated checksum must surface as a final error"
    );
    assert!(lazy.next().is_none(), "iterator fuses after the error");
    assert!(lazy.next().is_none(), "and stays fused");
}

#[test]
fn lazy_empty_jar_requires_checksum() {
    let input = *b"cook\x00\x00\x00\x00\x00\x00\x00";

    assert!(matches!(from_bytes(&input), Err(Error::UnexpectedEof)));

    let mut lazy = cookies(&input).unwrap();
    assert!(matches!(lazy.next(), Some(Err(Error::UnexpectedEof))));
    assert!(lazy.next().is_none());
}

#[test]
fn lazy_bad_page_tag_fuses() {
    let mut input = build_cookie_file(&spec_with_value());
    input[12..16].copy_from_slice(&[0xde, 0xad, 0xbe, 0xef]);

    assert!(matches!(from_bytes(&input), Err(Error::InvalidPageTag)));

    let mut lazy = cookies(&input).unwrap();
    assert!(matches!(lazy.next(), Some(Err(Error::InvalidPageTag))));
    assert!(lazy.next().is_none());
}

#[test]
fn invalid_page_end_is_rejected() {
    let mut input = build_cookie_file(&spec_with_value());
    input[24..28].copy_from_slice(&[0x01, 0x00, 0x00, 0x00]);
    assert!(matches!(from_bytes(&input), Err(Error::InvalidPageEnd)));
}

#[test]
fn invalid_cookie_header_end_is_rejected() {
    let mut input = build_cookie_file(&spec_with_value());
    input[64..68].copy_from_slice(&[0xde, 0xad, 0xbe, 0xef]);
    assert!(matches!(
        from_bytes(&input),
        Err(Error::InvalidCookieHeaderEnd)
    ));
}

#[test]
fn unknown_flag_bits_read_via_bitmask() {
    for (flags, secure, http_only) in [
        (0x2_u32, false, false),
        (0x3, true, false),
        (0x6, false, true),
        (0x7, true, true),
    ] {
        let spec = CookieSpec {
            flags,
            ..spec_with_value()
        };
        let jar = from_bytes(&build_cookie_file(&spec)).unwrap();
        let cookie = &jar.pages[0].cookies[0];
        assert_eq!(cookie.flags.bits(), flags);
        assert_eq!(cookie.is_secure(), secure, "flags {flags:#x}");
        assert_eq!(cookie.is_http_only(), http_only, "flags {flags:#x}");
    }
}

#[test]
fn lazy_clone_resumes_mid_stream() {
    let data = multipage();
    let mut original = cookies(&data).unwrap();
    let first = original.next().unwrap().unwrap();

    let mut clone = original.clone();
    let mut rest_original = Vec::new();
    while let Some(item) = original.next() {
        rest_original.push(item.unwrap());
    }
    let mut rest_clone = Vec::new();
    while let Some(item) = clone.next() {
        rest_clone.push(item.unwrap());
    }

    assert_eq!(rest_original.len(), 3, "multipage holds 4 cookies in total");
    assert_eq!(rest_original, rest_clone);
    assert_ne!(Some(&first), rest_clone.first(), "clone must not restart");
}

#[test]
fn parity_multipage_handwritten() {
    let jar = from_bytes(&multipage()).unwrap();
    assert_eq!(jar.pages.len(), 11);
    assert_eq!(jar.checksum, [0x00, 0x00, 0x16, 0x33, 0x07, 0x17, 0x20, 0x05]);

    let page = &jar.pages[1];
    assert_eq!(page.offsets, [28, 121, 220, 311]);
    assert_eq!(page.cookies.len(), 4);

    let expected = [
        ("httpOnly", false, true),
        ("httpOnlySecure", true, true),
        ("normal", false, false),
        ("secure", true, false),
    ];
    for (cookie, (name, secure, http_only)) in page.cookies.iter().zip(expected) {
        assert_eq!(cookie.domain, "urlecho.appspot.com");
        assert_eq!(cookie.name, name);
        assert_eq!(cookie.path, "/");
        assert_eq!(cookie.value, "value");
        assert_eq!(cookie.comment, None);
        assert_eq!(cookie.is_secure(), secure, "cookie {name}");
        assert_eq!(cookie.is_http_only(), http_only, "cookie {name}");
    }
}

#[test]
fn parity_multipage_empty_pages() {
    let jar = from_bytes(&multipage()).unwrap();
    for index in [0, 2, 3, 4, 5, 6, 7, 8, 9, 10] {
        let page = &jar.pages[index];
        assert!(page.cookies.is_empty(), "page {index} should have no cookies");
        assert!(page.offsets.is_empty(), "page {index} should have no offsets");
    }
}

#[test]
fn parity_invalid_signature() {
    let input = b"These are not cookies.";
    assert!(matches!(
        from_bytes(input),
        Err(Error::InvalidSignature(signature)) if signature == *b"Thes"
    ));
    assert!(matches!(
        cookies(input),
        Err(Error::InvalidSignature(signature)) if signature == *b"Thes"
    ));
}

#[test]
fn parity_eager_lazy_consistency() {
    for vector in [multipage(), build_cookie_file(&spec_with_value())] {
        let eager: Vec<Cookie> = from_bytes(&vector)
            .unwrap()
            .pages
            .into_iter()
            .flat_map(|page| page.cookies)
            .collect();
        let lazy = collect(&vector).unwrap();
        assert_eq!(eager, lazy);
    }
}

#[test]
fn readme_minimal_file() {
    let data = *b"cook\x00\x00\x00\x00\x00\x00\x00\x00\x00\x00\x00\x00";
    let jar = from_bytes(&data).unwrap();
    assert!(jar.pages.is_empty());
    assert_eq!(jar.checksum, [0; 8]);
    let mut stream = cookies(&data).unwrap();
    assert!(stream.next().is_none());
    assert_eq!(stream.size_hint(), (0, Some(0)));
}

fn line_of(cookie: &Cookie) -> String {
    let expires = datetime_from_unix((f64::from_bits(cookie.expires) + 978_307_200.0) as i64);
    safari_binarycookies::display::display_line(
        expires,
        &cookie.domain,
        &cookie.path,
        &cookie.name,
        &cookie.value,
        cookie.flags,
        cookie.comment.as_deref(),
    )
}

fn decode_one(spec: &CookieSpec) -> Cookie {
    let jar = from_bytes(&build_cookie_file(spec)).unwrap();
    jar.pages[0].cookies[0].clone()
}

const DISPLAY_EXPIRES: f64 = 418_125_600.0;

#[test]
fn display_plain() {
    let cookie = decode_one(&CookieSpec {
        domain: b"example.com\x00".to_vec(),
        name: b"sess\x00".to_vec(),
        path: b"/\x00".to_vec(),
        value: b"abc\x00".to_vec(),
        expires: DISPLAY_EXPIRES,
        ..CookieSpec::default()
    });
    assert_eq!(line_of(&cookie), "2014-04-02 10:00:00 example.com / sess abc");
}

#[test]
fn display_secure_httponly_comment() {
    let cookie = decode_one(&CookieSpec {
        comment: Some(b"note".to_vec()),
        domain: b"example.com\x00".to_vec(),
        name: b"sess\x00".to_vec(),
        path: b"/\x00".to_vec(),
        value: b"abc\x00".to_vec(),
        flags: 0x5,
        expires: DISPLAY_EXPIRES,
        ..CookieSpec::default()
    });
    assert_eq!(
        line_of(&cookie),
        "2014-04-02 10:00:00 example.com / sess abc Secure HttpOnly /* note */"
    );
}

#[test]
fn display_negative_year_pads_like_go() {
    let cookie = decode_one(&CookieSpec {
        domain: b"d\x00".to_vec(),
        name: b"n\x00".to_vec(),
        path: b"/\x00".to_vec(),
        value: b"v\x00".to_vec(),
        expires: -64_000_000_000.0,
        ..CookieSpec::default()
    });
    assert_eq!(line_of(&cookie), "-0028-12-03 06:13:20 d / n v");
}

#[test]
fn format_line_pads_every_field() {
    assert_eq!(
        format_line(7, 1, 2, 3, 4, 5, "d", "/", "n", "v", Flags::new(0), Some("")),
        "0007-01-02 03:04:05 d / n v"
    );
    assert_eq!(
        format_line(-12345, 12, 31, 23, 59, 59, "d", "p", "n", "v", Flags::new(4), Some("x")),
        "-12345-12-31 23:59:59 d p n v HttpOnly /* x */"
    );
    assert_eq!(
        format_line(i32::MIN, 10, 10, 10, 10, 10, "", "", "", "", Flags::new(1), None),
        "-2147483648-10-10 10:10:10     Secure"
    );
}
