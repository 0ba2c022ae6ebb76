use rrdpit::rrdp::Cleanup;
use rrdpit::session::SessionId;
use rrdpit::sync::{
    derive_relative_path, derive_uri, file_path, is_hidden, Base64, CurrentFile, EncodedHash, Error,
    HttpsUri, RsyncUri,
};
use rrdpit::text::{decimal, parse_u64};
use rrdpit::xml::{decode, encode, Attribute, Attributes, AttributesError, Document, Element};

#[test]
fn base64_of_content() {
    assert_eq!(b"aGVsbG8=", Base64::from_content(b"hello").as_bytes());
    assert_eq!(b"", Base64::from_content(b"").as_bytes());
    assert_eq!(b"QQ==", Base64::from_b64_str("QQ==").as_bytes());
}

#[test]
fn hash_of_content() {
    let h = EncodedHash::from_content(b"a");
    assert_eq!(
        b"ca978112ca1bbdcafac231b39a23dc4da786eff8147c4e72b9807785afee48bb",
        h.as_bytes()
    );
    let d = EncodedHash::sha256(b"a");
    assert_eq!(32, d.len());
    assert_eq!(0xca, d[0]);
    assert_eq!(0xbb, d[31]);
}

#[test]
fn current_file_holds_encoding_and_digest() {
    let f = CurrentFile::new(RsyncUri::from("rsync://h/r/x"), b"hello");
    assert_eq!(b"rsync://h/r/x", f.uri().as_bytes());
    assert_eq!(b"aGVsbG8=", f.base64().as_bytes());
    assert_eq!(
        b"2cf24dba5fb0a30e26e83b2ac5b9e29e1b161e5c1fa7425e73043362938b9824",
        f.hash().as_bytes()
    );
}

#[test]
fn session_text_round_trips() {
    let s = SessionId::new(0xa1a2a3a4b1b2c1c2d1d2d3d4d5d6d7d8);
    assert_eq!(b"a1a2a3a4-b1b2-c1c2-d1d2-d3d4d5d6d7d8", s.text().as_slice());
    assert_eq!(Some(s), SessionId::parse(&s.text()));
    assert_eq!(None, SessionId::parse(b"not-a-uuid"));
    assert_eq!(b"00000000-0000-0000-0000-000000000000", SessionId::new(0).text().as_slice());
}

#[test]
fn base_uris_need_scheme_and_slash() {
    assert_eq!(b"rsync://h/r/", RsyncUri::base_uri("rsync://h/r/").unwrap().as_bytes());
    assert!(matches!(RsyncUri::base_uri("rsync://h/r"), Err(Error::InvalidRsyncBase)));
    assert!(matches!(RsyncUri::base_uri("https://h/r/"), Err(Error::InvalidRsyncBase)));
    assert_eq!(b"https://h/r/", HttpsUri::base_uri("https://h/r/").unwrap().as_bytes());
    assert!(matches!(HttpsUri::base_uri("https://h/r"), Err(Error::InvalidHttpsBase)));
    assert!(matches!(HttpsUri::base_uri("rsync://h/r/"), Err(Error::InvalidHttpsBase)));
    assert!(RsyncUri::base_uri("rsync://").is_ok());
}

#[test]
fn resolve_and_relative_to() {
    let base = HttpsUri::from("https://h/rrdp/");
    assert_eq!(b"https://h/rrdp/a/b.xml", base.resolve(b"a/b.xml").as_bytes());
    assert_eq!(Some(b"a/b.xml".to_vec()), base.relative_to(b"https://h/rrdp/a/b.xml"));
    assert_eq!(Some(Vec::new()), base.relative_to(b"https://h/rrdp/"));
    assert_eq!(None, base.relative_to(b"https://h/other/a.xml"));
    assert_eq!(None, base.relative_to(b"https://h/rrdp"));
    let r = RsyncUri::from("rsync://h/r/");
    assert_eq!(b"rsync://h/r/x/y.cer", r.resolve(b"x/y.cer").as_bytes());
}

#[test]
fn paths_join_and_split() {
    assert_eq!(b"base/name".to_vec(), file_path(b"base", b"name"));
    assert_eq!(b"base/name".to_vec(), file_path(b"base/", b"name"));
    assert_eq!(b"/abs".to_vec(), file_path(b"base", b"/abs"));
    assert_eq!(b"name".to_vec(), file_path(b"", b"name"));
    assert_eq!(b"a/b.txt".to_vec(), derive_relative_path(b"/src/", b"/src/a/b.txt").unwrap());
    assert!(matches!(
        derive_relative_path(b"/src/", b"/other/a"),
        Err(Error::OutsideJail(p, b)) if p == b"/other/a" && b == b"/src/"
    ));
    let rsync = RsyncUri::from("rsync://h/r/");
    assert_eq!(
        b"rsync://h/r/a/b.txt",
        derive_uri(b"/src/", b"/src/a/b.txt", &rsync).unwrap().as_bytes()
    );
    assert!(matches!(derive_uri(b"/src/", b"/x", &rsync), Err(Error::OutsideJail(_, _))));
}

#[test]
fn decimal_numbers() {
    assert_eq!(b"0".to_vec(), decimal(0));
    assert_eq!(b"1234".to_vec(), decimal(1234));
    assert_eq!(b"18446744073709551615".to_vec(), decimal(u64::MAX));
    assert_eq!(Some(u64::MAX), parse_u64(b"18446744073709551615"));
    assert_eq!(None, parse_u64(b"18446744073709551616"));
    assert_eq!(Some(7), parse_u64(b"007"));
    assert_eq!(None, parse_u64(b""));
    assert_eq!(Some(7), parse_u64(b"+7"));
    assert_eq!(None, parse_u64(b"+"));
    assert_eq!(None, parse_u64(b"++7"));
    assert_eq!(None, parse_u64(b"7+"));
    assert_eq!(None, parse_u64(b"1a"));
}

fn attr(name: &str, value: &str) -> Attribute {
    Attribute { name: name.as_bytes().to_vec(), value: value.as_bytes().to_vec() }
}

fn sample() -> Document {
    Document {
        name: b"root".to_vec(),
        attrs: vec![attr("a", "x&y\"z'<>")],
        children: vec![
            Element { name: b"leaf".to_vec(), attrs: vec![attr("k", "v")], text: b"t<&>\"".to_vec() },
            Element { name: b"empty".to_vec(), attrs: Vec::new(), text: Vec::new() },
        ],
    }
}

#[test]
fn xml_writes_canonical_form() {
    let bytes = encode(&sample());
    let expected = "<?xml version=\"1.0\" encoding=\"UTF-8\"?>\n<root a=\"x&amp;y&quot;z&apos;&lt;&gt;\"><leaf k=\"v\">t&lt;&amp;&gt;\"</leaf><empty/></root>";
    assert_eq!(expected.as_bytes(), bytes.as_slice());
    let bare = Document { name: b"r".to_vec(), attrs: Vec::new(), children: Vec::new() };
    assert_eq!(b"<?xml version=\"1.0\" encoding=\"UTF-8\"?>\n<r/>".to_vec(), encode(&bare));
}

#[test]
fn xml_reads_what_it_writes() {
    let bytes = encode(&sample());
    let d = decode(&bytes).unwrap();
    assert_eq!(b"root".to_vec(), d.name);
    assert_eq!(b"x&y\"z'<>".to_vec(), d.attrs[0].value);
    assert_eq!(2, d.children.len());
    assert_eq!(b"t<&>\"".to_vec(), d.children[0].text);
    assert_eq!(b"empty".to_vec(), d.children[1].name);
    assert_eq!(bytes, encode(&d));
}

#[test]
fn xml_rejects_other_forms() {
    let decl = "<?xml version=\"1.0\" encoding=\"UTF-8\"?>\n";
    for body in [
        "<r></r>",
        "<r> <a/></r>",
        "<r><a></a></r>",
        "<r a='v'/>",
        "<r a=\"&unknown;\"/>",
        "<r><a>x>y</a></r>",
        "<r><a/></s>",
        "<r/>trailing",
        "<r><a/>",
    ] {
        let text = format!("{}{}", decl, body);
        assert!(decode(text.as_bytes()).is_err(), "{}", body);
    }
    assert!(decode(b"<r/>").is_err());
}

#[test]
fn attributes_are_taken_once() {
    let mut a = Attributes::new(vec![attr("uri", "u"), attr("hash", "h"), attr("uri", "w")]);
    assert_eq!(b"u".to_vec(), a.take_req(b"uri").unwrap());
    assert_eq!(b"w".to_vec(), a.take_req(b"uri").unwrap());
    assert!(matches!(a.take_req(b"uri"), Err(AttributesError::MissingAttribute(n)) if n == b"uri"));
    assert!(matches!(a.exhausted(), Err(AttributesError::UnexpectedAttribute(n)) if n == b"hash"));
    assert_eq!(b"h".to_vec(), a.take_req(b"hash").unwrap());
    assert!(a.exhausted().is_ok());
}

#[test]
fn cleanup_keeps_session_and_recent_serials() {
    let c = Cleanup {
        base_dir: b"./t/".to_vec(),
        session: b"s-1".to_vec(),
        session_dir: b"./t/s-1/".to_vec(),
        min_serial: Some(5),
    };
    assert!(c.keeps_in_base(b"s-1"));
    assert!(c.keeps_in_base(b"notification.xml"));
    assert!(!c.keeps_in_base(b"s-2"));
    assert!(c.keeps_in_session(b"5"));
    assert!(c.keeps_in_session(b"12"));
    assert!(!c.keeps_in_session(b"4"));
    assert!(c.keeps_in_session(b"notes"));
    let none = Cleanup { min_serial: None, ..c };
    assert!(none.keeps_in_session(b"1"));
}

#[test]
fn base64_length_and_padding() {
    assert_eq!(b"YQ==", Base64::from_content(b"a").as_bytes());
    assert_eq!(b"YWI=", Base64::from_content(b"ab").as_bytes());
    assert_eq!(b"YWJj", Base64::from_content(b"abc").as_bytes());
    assert_eq!(4 * ((1000 + 2) / 3), Base64::from_content(&[0u8; 1000]).as_bytes().len());
    assert_eq!(64, EncodedHash::from_content(&[1u8; 1000]).as_bytes().len());
}

#[test]
fn hidden_names_start_with_a_dot() {
    assert!(is_hidden(b".git"));
    assert!(is_hidden(b"."));
    assert!(is_hidden(b".."));
    assert!(!is_hidden(b"file.txt"));
    assert!(!is_hidden(b""));
}
