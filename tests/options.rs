use rrdpit::options::{Error, Options};

#[test]
fn parse_arguments() {
    Options::from_strs(
        "./test-resources/source-1",
        "./test-work",
        "rsync://localhost/repo/",
        "https://localhost/repo/",
        false,
        &"25",
    )
    .unwrap();
}

#[test]
fn options_keep_their_values() {
    let o = Options::from_strs("src", "dst", "rsync://h/r/", "https://h/r/", true, "7").unwrap();
    assert_eq!("src", o.source);
    assert_eq!("dst", o.target);
    assert_eq!(b"rsync://h/r/", o.rsync.as_bytes());
    assert_eq!(b"https://h/r/", o.https.as_bytes());
    assert!(o.clean);
    assert_eq!(7, o.max_deltas);
}

#[test]
fn options_reject_bad_rsync_base() {
    let r = Options::from_strs("s", "t", "rsync://h/r", "https://h/r/", false, "25");
    assert!(matches!(r, Err(Error::RsyncBaseUri(s)) if s == "rsync://h/r"));
    let r = Options::from_strs("s", "t", "http://h/r/", "https://h/r/", false, "25");
    assert!(matches!(r, Err(Error::RsyncBaseUri(_))));
}

#[test]
fn options_reject_bad_https_base() {
    let r = Options::from_strs("s", "t", "rsync://h/r/", "http://h/r/", false, "25");
    assert!(matches!(r, Err(Error::HttpsBaseUri(s)) if s == "http://h/r/"));
}

#[test]
fn options_reject_bad_number() {
    for bad in ["", "x", "-1", "2 5", "99999999999999999999", "+", "++1", "1+"] {
        let r = Options::from_strs("s", "t", "rsync://h/r/", "https://h/r/", false, bad);
        assert!(matches!(r, Err(Error::CannotParseNumber(s)) if s == bad));
    }
}

#[test]
fn options_accept_a_plus_sign() {
    let o = Options::from_strs("s", "t", "rsync://h/r/", "https://h/r/", false, "+25").unwrap();
    assert_eq!(25, o.max_deltas);
}
