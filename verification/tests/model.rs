use safari_binarycookies::{BinaryCookies, Cookie, Cookies, Error, Flags, Page};

fn assert_send_sync<T: Send + Sync>() {}

#[test]
fn public_types_are_send_and_sync() {
    assert_send_sync::<BinaryCookies>();
    assert_send_sync::<Page>();
    assert_send_sync::<Cookie>();
    assert_send_sync::<Flags>();
    assert_send_sync::<Error>();
    assert_send_sync::<Cookies<'static>>();
}

#[test]
fn flags_read_bits_via_bitmask() {
    assert!(!Flags::new(0x0).is_secure() && !Flags::new(0x0).is_http_only());
    assert!(Flags::new(0x1).is_secure() && !Flags::new(0x1).is_http_only());
    assert!(!Flags::new(0x4).is_secure() && Flags::new(0x4).is_http_only());
    assert!(Flags::new(0x5).is_secure() && Flags::new(0x5).is_http_only());
    assert_eq!(Flags::new(0x2).bits(), 0x2);
}

#[test]
fn flags_contains_requires_every_bit() {
    assert!(Flags::new(0x5).contains(Flags::SECURE | Flags::HTTP_ONLY));
    assert!(!Flags::new(0x4).contains(Flags::SECURE | Flags::HTTP_ONLY));
    assert!(Flags::new(0x0).contains(0));
    assert!(Flags::new(0xffff_fffe).is_http_only());
    assert!(!Flags::new(0xffff_fffe).is_secure());
}
